//! Column assigner: packs branches into integer columns within their order
//! group by interval scheduling, avoiding overlap with concurrently active
//! branches and with a merge target's reserved column.

use vstd::prelude::*;

use std::collections::HashMap;

use crate::graph::BranchInfo;
use crate::graph::BranchView;
use crate::graph::BranchVisView;
use crate::graph::CommitInfo;
use crate::graph::CommitView;
use crate::settings::BranchSettings;

verus! {

broadcast use vstd::std_specs::hash::group_hash_axioms;

/// One branch prepared for packing: its index, its closed-off active range
/// (open ends filled with the defaults), and the order groups of its
/// neighbors (the group count plus one when there is none).
pub type ColItem = (usize, usize, usize, usize, usize);

/// The packing priority order: branches with more distant neighbor groups
/// first; within that, by range length and range start, each ascending or
/// descending as configured.
pub open spec fn spec_item_le(a: ColItem, b: ColItem, shortest_first: bool, forward: bool) -> bool {
    let ma: int = if a.3 >= a.4 {
        a.3 as int
    } else {
        a.4 as int
    };
    let mb: int = if b.3 >= b.4 {
        b.3 as int
    } else {
        b.4 as int
    };
    ||| ma < mb
    ||| (ma == mb && (if shortest_first {
        a.2 + b.1 < b.2 + a.1
    } else {
        b.2 + a.1 < a.2 + b.1
    }))
    ||| (ma == mb && a.2 + b.1 == b.2 + a.1 && (if forward {
        a.1 <= b.1
    } else {
        b.1 <= a.1
    }))
}

/// Decides the packing priority of two prepared branches.
fn item_le(a: ColItem, b: ColItem, shortest_first: bool, forward: bool) -> (r: bool)
    ensures
        r == spec_item_le(a, b, shortest_first, forward),
{
    let ma = if a.3 >= a.4 {
        a.3
    } else {
        a.4
    };
    let mb = if b.3 >= b.4 {
        b.3
    } else {
        b.4
    };
    if ma != mb {
        return ma < mb;
    }
    let lena = a.2 as u128 + b.1 as u128;
    let lenb = b.2 as u128 + a.1 as u128;
    if lena != lenb {
        if shortest_first {
            return lena < lenb;
        } else {
            return lenb < lena;
        }
    }
    if forward {
        a.1 <= b.1
    } else {
        b.1 <= a.1
    }
}

/// Stable insertion of `x` after every item that does not come after it.
pub open spec fn spec_insert_item(x: ColItem, s: Seq<ColItem>, sh: bool, fw: bool) -> Seq<ColItem>
    decreases s.len(),
{
    if s.len() == 0 {
        seq![x]
    } else if spec_item_le(s.last(), x, sh, fw) {
        s.push(x)
    } else {
        spec_insert_item(x, s.drop_last(), sh, fw).push(s.last())
    }
}

/// Stable insertion sort of the prepared branches.
pub open spec fn spec_sort_items(s: Seq<ColItem>, sh: bool, fw: bool) -> Seq<ColItem>
    decreases s.len(),
{
    if s.len() == 0 {
        Seq::<ColItem>::empty()
    } else {
        spec_insert_item(s.last(), spec_sort_items(s.drop_last(), sh, fw), sh, fw)
    }
}

proof fn lemma_insert_item_at(x: ColItem, s: Seq<ColItem>, j: int, sh: bool, fw: bool)
    requires
        0 <= j <= s.len(),
        forall|k: int| j <= k < s.len() ==> !spec_item_le(#[trigger] s[k], x, sh, fw),
        j > 0 ==> spec_item_le(s[j - 1], x, sh, fw),
    ensures
        spec_insert_item(x, s, sh, fw) == s.take(j) + seq![x] + s.skip(j),
    decreases s.len(),
{
    if s.len() == 0 {
        assert(spec_insert_item(x, s, sh, fw) =~= s.take(j) + seq![x] + s.skip(j));
    } else if j == s.len() {
        assert(s.push(x) =~= s.take(j) + seq![x] + s.skip(j));
    } else {
        let dl = s.drop_last();
        assert(forall|k: int| j <= k < dl.len() ==> !spec_item_le(#[trigger] dl[k], x, sh, fw));
        lemma_insert_item_at(x, dl, j, sh, fw);
        assert(spec_insert_item(x, dl, sh, fw).push(s.last()) =~= s.take(j) + seq![x] + s.skip(j));
    }
}

/// The packed interval start of a branch: its range start, 0 for an open
/// start.
pub open spec fn spec_range_start(b: BranchView) -> usize {
    match b.range.0 {
        Some(st) => st,
        None => 0,
    }
}

/// The packed interval end of a branch: its range end, the branch-count
/// default for an open end.
pub open spec fn spec_range_end(b: BranchView, n: int) -> usize {
    match b.range.1 {
        Some(en) => en,
        None => (n - 1) as usize,
    }
}

/// Whether the packed intervals of two branches overlap.
pub open spec fn spec_ranges_overlap(a: BranchView, b: BranchView, n: int) -> bool {
    spec_range_start(a) <= spec_range_end(b, n) && spec_range_start(b) <= spec_range_end(a, n)
}

/// The item the packing pass builds for the branch at `q`.
pub open spec fn spec_item_of(bs: Seq<BranchView>, q: int, dflt: usize) -> ColItem {
    (
        q as usize,
        spec_range_start(bs[q]),
        spec_range_end(bs[q], bs.len() as int),
        match bs[q].visual.source_order_group {
            Some(g) => g,
            None => dflt,
        },
        match bs[q].visual.target_order_group {
            Some(g) => g,
            None => dflt,
        },
    )
}

/// The branches that take part in packing, in branch order: every branch
/// with a non-empty active range, open ends replaced by 0 and by the
/// branch-count default, missing neighbor groups by `dflt`.
pub open spec fn spec_build_items(bs: Seq<BranchView>, i: int, dflt: usize) -> Seq<ColItem>
    decreases bs.len() - i,
{
    if i < 0 || i >= bs.len() {
        Seq::<ColItem>::empty()
    } else {
        (if bs[i].range.0 is Some || bs[i].range.1 is Some {
            seq![spec_item_of(bs, i, dflt)]
        } else {
            Seq::<ColItem>::empty()
        }) + spec_build_items(bs, i + 1, dflt)
    }
}

/// Whether the interval `[start, end]` overlaps any interval already placed
/// in the column.
pub open spec fn spec_col_overlaps(col: Seq<(usize, usize)>, start: usize, end: usize) -> bool {
    exists|k: int| 0 <= k < col.len() && start <= (#[trigger] col[k]).1 && end >= col[k].0
}

/// The column reserved for the branch's merge target: the target lane's
/// column, when that lane sits in the same order group.
pub open spec fn spec_reserved_col(
    cs: Seq<CommitView>,
    bs: Seq<BranchView>,
    m: Map<u64, usize>,
    b: BranchView,
) -> Option<usize> {
    match b.merge_target {
        Some(mt) => if m.contains_key(mt) && m[mt] < cs.len() {
            match cs[m[mt] as int].branch_trace {
                Some(tr) => if tr < bs.len() && bs[tr as int].visual.order_group
                    == b.visual.order_group {
                    bs[tr as int].visual.column
                } else {
                    None
                },
                None => None,
            }
        } else {
            None
        },
        None => None,
    }
}

/// The first usable column in scan order (`k` columns already tried):
/// usable means no interval overlap and not the reserved column; the column
/// count itself when none is usable.
pub open spec fn spec_find_col(
    cols: Seq<Seq<(usize, usize)>>,
    start: usize,
    end: usize,
    align_right: bool,
    reserved: Option<usize>,
    k: int,
) -> int
    decreases cols.len() - k,
{
    if k < 0 || k >= cols.len() {
        cols.len() as int
    } else {
        let index = if align_right {
            cols.len() - 1 - k
        } else {
            k
        };
        if !spec_col_overlaps(cols[index], start, end) && reserved != Some(index as usize) {
            index
        } else {
            spec_find_col(cols, start, end, align_right, reserved, k + 1)
        }
    }
}

/// Whether the scan direction is right-to-left: a neighbor lane lies in a
/// group further right.
pub open spec fn spec_align_right(bs: Seq<BranchView>, b: BranchView) -> bool {
    ||| (match b.source_branch {
        Some(src) => src < bs.len() && bs[src as int].visual.order_group > b.visual.order_group,
        None => false,
    })
    ||| (match b.target_branch {
        Some(trg) => trg < bs.len() && bs[trg as int].visual.order_group > b.visual.order_group,
        None => false,
    })
}

/// One branch placed: the first usable column of its group takes its
/// interval, and the branch remembers that (still group-local) column.
pub open spec fn spec_place_step(
    cs: Seq<CommitView>,
    occ: Seq<Seq<Seq<(usize, usize)>>>,
    bs: Seq<BranchView>,
    m: Map<u64, usize>,
    it: ColItem,
) -> (Seq<Seq<Seq<(usize, usize)>>>, Seq<BranchView>) {
    let b = bs[it.0 as int];
    let group = b.visual.order_group as int;
    if 0 <= it.0 < bs.len() && 0 <= group < occ.len() {
        let cols = occ[group];
        let reserved = spec_reserved_col(cs, bs, m, b);
        let found = spec_find_col(cols, it.1, it.2, spec_align_right(bs, b), reserved, 0);
        let cols1 = if found == cols.len() {
            cols.push(seq![(it.1, it.2)])
        } else {
            cols.update(found, cols[found].push((it.1, it.2)))
        };
        (
            occ.update(group, cols1),
            bs.update(it.0 as int, BranchView {
                visual: BranchVisView { column: Some(found as usize), ..b.visual },
                ..b
            }),
        )
    } else {
        (occ, bs)
    }
}

/// All prepared branches placed, in priority order.
pub open spec fn spec_place_from(
    cs: Seq<CommitView>,
    occ: Seq<Seq<Seq<(usize, usize)>>>,
    bs: Seq<BranchView>,
    m: Map<u64, usize>,
    items: Seq<ColItem>,
    i: int,
) -> (Seq<Seq<Seq<(usize, usize)>>>, Seq<BranchView>)
    decreases items.len() - i,
{
    if i < 0 || i >= items.len() {
        (occ, bs)
    } else {
        let st = spec_place_step(cs, occ, bs, m, items[i]);
        spec_place_from(cs, st.0, st.1, m, items, i + 1)
    }
}

/// The group offsets: a prefix sum of the per-group column counts.
pub open spec fn spec_offsets(occ: Seq<Seq<Seq<(usize, usize)>>>, g: int) -> int
    decreases g,
{
    if g <= 0 {
        0
    } else {
        spec_offsets(occ, g - 1) + occ[g - 1].len()
    }
}

/// Every branch's group-local column lifted to an absolute column by its
/// group's offset.
pub open spec fn spec_apply_offsets(
    occ: Seq<Seq<Seq<(usize, usize)>>>,
    bs: Seq<BranchView>,
) -> Seq<BranchView> {
    bs.map_values(
        |b: BranchView|
            match b.visual.column {
                Some(c) => BranchView {
                    visual: BranchVisView {
                        column: Some(
                            (c + spec_offsets(occ, b.visual.order_group as int)) as usize,
                        ),
                        ..b.visual
                    },
                    ..b
                },
                None => b,
            },
    )
}

/// The whole column assignment: filter and sort the branches, pack them
/// group by group, then renumber the group-local columns globally.
pub open spec fn spec_assign_columns(
    cs: Seq<CommitView>,
    bs: Seq<BranchView>,
    m: Map<u64, usize>,
    order_len: int,
    shortest_first: bool,
    forward: bool,
) -> Seq<BranchView> {
    let dflt = (order_len + 1) as usize;
    let items = spec_sort_items(spec_build_items(bs, 0, dflt), shortest_first, forward);
    let occ0 = Seq::<Seq<Seq<(usize, usize)>>>::new((order_len + 1) as nat, |g: int| Seq::empty());
    let placed = spec_place_from(cs, occ0, bs, m, items, 0);
    spec_apply_offsets(placed.0, placed.1)
}

/// No branch has a column yet (columns are assigned exactly once).
pub open spec fn columns_unset(bs: Seq<BranchView>) -> bool {
    forall|j: int| 0 <= j < bs.len() ==> (#[trigger] bs[j]).visual.column is None
}

/// Changing one group's columns changes the prefix sums by that group's
/// size difference.
proof fn lemma_offsets_update(
    occ: Seq<Seq<Seq<(usize, usize)>>>,
    g: int,
    cols1: Seq<Seq<(usize, usize)>>,
    k: int,
)
    requires
        0 <= g < occ.len(),
        k <= occ.len(),
    ensures
        spec_offsets(occ.update(g, cols1), k) == spec_offsets(occ, k) + (if g < k {
            cols1.len() - occ[g].len()
        } else {
            0int
        }),
    decreases k,
{
    if k > 0 {
        lemma_offsets_update(occ, g, cols1, k - 1);
    }
}

/// Prefix sums of the column counts are monotone.
proof fn lemma_offsets_mono(occ: Seq<Seq<Seq<(usize, usize)>>>, a: int, b: int)
    requires
        0 <= a <= b <= occ.len(),
    ensures
        spec_offsets(occ, a) <= spec_offsets(occ, b),
    decreases b,
{
    if a < b {
        lemma_offsets_mono(occ, a, b - 1);
    }
}

/// The prepared items list is never longer than the branch list, and every
/// item points at a branch.
proof fn lemma_build_items_bounds(bs: Seq<BranchView>, i: int, dflt: usize)
    requires
        0 <= i <= bs.len(),
    ensures
        spec_build_items(bs, i, dflt).len() <= bs.len() - i,
        forall|k: int|
            0 <= k < spec_build_items(bs, i, dflt).len() ==> (#[trigger] spec_build_items(
                bs,
                i,
                dflt,
            )[k]).0 < bs.len(),
    decreases bs.len() - i,
{
    if i < bs.len() {
        lemma_build_items_bounds(bs, i + 1, dflt);
    }
}

/// Insertion keeps every item and adds one.
proof fn lemma_insert_item_len(x: ColItem, s: Seq<ColItem>, sh: bool, fw: bool)
    ensures
        spec_insert_item(x, s, sh, fw).len() == s.len() + 1,
        forall|k: int|
            0 <= k < spec_insert_item(x, s, sh, fw).len() ==> (#[trigger] spec_insert_item(
                x,
                s,
                sh,
                fw,
            )[k]) == x || s.contains(spec_insert_item(x, s, sh, fw)[k]),
    decreases s.len(),
{
    if s.len() > 0 && !spec_item_le(s.last(), x, sh, fw) {
        lemma_insert_item_len(x, s.drop_last(), sh, fw);
        assert forall|k: int|
            0 <= k < spec_insert_item(x, s, sh, fw).len() implies (#[trigger] spec_insert_item(
            x,
            s,
            sh,
            fw,
        )[k]) == x || s.contains(spec_insert_item(x, s, sh, fw)[k]) by {
            let r = spec_insert_item(x, s, sh, fw);
            let rd = spec_insert_item(x, s.drop_last(), sh, fw);
            if k < r.len() - 1 {
                assert(r[k] == rd[k]);
                if rd[k] != x {
                    let j = choose|j: int| 0 <= j < s.drop_last().len() && s.drop_last()[j] == rd[k];
                    assert(s[j] == rd[k]);
                }
            } else {
                assert(r[k] == s.last());
                assert(s[s.len() - 1] == s.last());
            }
        }
    } else {
        assert forall|k: int|
            0 <= k < spec_insert_item(x, s, sh, fw).len() implies (#[trigger] spec_insert_item(
            x,
            s,
            sh,
            fw,
        )[k]) == x || s.contains(spec_insert_item(x, s, sh, fw)[k]) by {
            let r = spec_insert_item(x, s, sh, fw);
            if s.len() > 0 && k < r.len() - 1 {
                assert(r[k] == s[k]);
            }
        }
    }
}

/// Sorting keeps the length and the members.
proof fn lemma_sort_items_bounds(s: Seq<ColItem>, sh: bool, fw: bool)
    ensures
        spec_sort_items(s, sh, fw).len() == s.len(),
        forall|k: int|
            0 <= k < s.len() ==> s.contains(#[trigger] spec_sort_items(s, sh, fw)[k]),
    decreases s.len(),
{
    if s.len() > 0 {
        lemma_sort_items_bounds(s.drop_last(), sh, fw);
        lemma_insert_item_len(s.last(), spec_sort_items(s.drop_last(), sh, fw), sh, fw);
        assert forall|k: int|
            0 <= k < s.len() implies s.contains(#[trigger] spec_sort_items(s, sh, fw)[k]) by {
            let r = spec_sort_items(s, sh, fw);
            let rd = spec_sort_items(s.drop_last(), sh, fw);
            if r[k] == s.last() {
                assert(s[s.len() - 1] == s.last());
            } else {
                assert(rd.contains(r[k]));
                let j = choose|j: int| 0 <= j < rd.len() && rd[j] == r[k];
                assert(s.drop_last().contains(rd[j]));
                let j2 = choose|j2: int| 0 <= j2 < s.drop_last().len() && s.drop_last()[j2] == rd[j];
                assert(s[j2] == r[k]);
            }
        }
    }
}


/// The prefix sums of an all-empty occupancy are zero.
proof fn lemma_offsets_empty(occ: Seq<Seq<Seq<(usize, usize)>>>, k: int)
    requires
        forall|g: int| 0 <= g < occ.len() ==> (#[trigger] occ[g]).len() == 0,
        k <= occ.len(),
    ensures
        spec_offsets(occ, k) == 0,
    decreases k,
{
    if k > 0 {
        lemma_offsets_empty(occ, k - 1);
    }
}

/// Every branch with a column points into its group's open columns.
pub open spec fn spec_cols_cover(
    occ: Seq<Seq<Seq<(usize, usize)>>>,
    bs: Seq<BranchView>,
) -> bool {
    forall|q: int|
        0 <= q < bs.len() && (#[trigger] bs[q]).visual.column is Some ==> bs[q].visual.order_group
            < occ.len() && bs[q].visual.column->0 < occ[bs[q].visual.order_group as int].len()
}

/// Placement keeps the group count, only grows the groups, adds at most one
/// column per placed branch, and leaves every placed branch's column inside
/// its group.
proof fn lemma_place_cover(
    cs: Seq<CommitView>,
    occ: Seq<Seq<Seq<(usize, usize)>>>,
    bs: Seq<BranchView>,
    m: Map<u64, usize>,
    items: Seq<ColItem>,
    i: int,
)
    requires
        0 <= i <= items.len(),
        spec_cols_cover(occ, bs),
    ensures
        ({
            let r = spec_place_from(cs, occ, bs, m, items, i);
            &&& r.0.len() == occ.len()
            &&& r.1.len() == bs.len()
            &&& forall|g: int| 0 <= g < occ.len() ==> (#[trigger] occ[g]).len() <= r.0[g].len()
            &&& spec_offsets(r.0, occ.len() as int) <= spec_offsets(occ, occ.len() as int)
                + (items.len() - i)
            &&& spec_cols_cover(r.0, r.1)
            &&& forall|q: int|
                0 <= q < bs.len() ==> (#[trigger] r.1[q]).visual.order_group
                    == bs[q].visual.order_group
        }),
    decreases items.len() - i,
{
    if i < items.len() {
        let st = spec_place_step(cs, occ, bs, m, items[i]);
        let it = items[i];
        let b = bs[it.0 as int];
        let group = b.visual.order_group as int;
        if 0 <= it.0 < bs.len() && 0 <= group < occ.len() {
            let cols = occ[group];
            let reserved = spec_reserved_col(cs, bs, m, b);
            let found = spec_find_col(cols, it.1, it.2, spec_align_right(bs, b), reserved, 0);
            lemma_find_col_bounds(cols, it.1, it.2, spec_align_right(bs, b), reserved, 0);
            assert(st.0 == occ.update(group, st.0[group]));
            assert(cols.len() <= st.0[group].len() <= cols.len() + 1);
            lemma_offsets_update(occ, group, st.0[group], occ.len() as int);
            assert(spec_offsets(st.0, occ.len() as int) <= spec_offsets(occ, occ.len() as int)
                + 1);
            assert forall|g: int| 0 <= g < occ.len() implies (#[trigger] occ[g]).len()
                <= st.0[g].len() by {}
            assert(spec_cols_cover(st.0, st.1));
        } else {
            assert(st == (occ, bs));
        }
        lemma_place_cover(cs, st.0, st.1, m, items, i + 1);
        let r = spec_place_from(cs, occ, bs, m, items, i);
        assert(r == spec_place_from(cs, st.0, st.1, m, items, i + 1));
        assert forall|g: int| 0 <= g < occ.len() implies (#[trigger] occ[g]).len() <= r.0[g].len()
            by {
            assert(occ[g].len() <= st.0[g].len());
        }
        assert forall|q: int| 0 <= q < bs.len() implies (#[trigger] r.1[q]).visual.order_group
            == bs[q].visual.order_group by {
            assert(st.1[q].visual.order_group == bs[q].visual.order_group);
        }
    }
}

/// The scan result is never past the column count.
proof fn lemma_find_col_bounds(
    cols: Seq<Seq<(usize, usize)>>,
    start: usize,
    end: usize,
    align_right: bool,
    reserved: Option<usize>,
    k: int,
)
    requires
        0 <= k,
    ensures
        0 <= spec_find_col(cols, start, end, align_right, reserved, k) <= cols.len(),
    decreases cols.len() - k,
{
    if k < cols.len() {
        lemma_find_col_bounds(cols, start, end, align_right, reserved, k + 1);
    }
}

/// Sorts the prepared branches by packing priority, stably.
fn sort_items(items: Vec<ColItem>, shortest_first: bool, forward: bool) -> (r: Vec<ColItem>)
    ensures
        r@ == spec_sort_items(items@, shortest_first, forward),
{
    let ghost input = items@;
    let mut rest = items;
    let mut out: Vec<ColItem> = Vec::new();
    let ghost mut done: int = 0;
    while rest.len() > 0
        invariant
            done == input.len() - rest.len(),
            0 <= done <= input.len(),
            rest@ =~= input.skip(done),
            out@ == spec_sort_items(input.take(done), shortest_first, forward),
        decreases rest.len(),
    {
        let ghost pre_rest = rest@;
        let x = rest.remove(0);
        proof {
            assert(x == input[done]);
            assert(rest@ =~= input.skip(done + 1));
        }
        let mut j = out.len();
        while j > 0 && !item_le(out[j - 1], x, shortest_first, forward)
            invariant
                0 <= j <= out.len(),
                forall|k: int|
                    j <= k < out@.len() ==> !spec_item_le(#[trigger] out@[k], x, shortest_first, forward),
            decreases j,
        {
            j -= 1;
        }
        proof {
            lemma_insert_item_at(x, out@, j as int, shortest_first, forward);
            assert(input.take(done + 1).drop_last() =~= input.take(done));
            assert(input.take(done + 1).last() == input[done]);
        }
        let ghost pre_out = out@;
        out.insert(j, x);
        proof {
            assert(out@ =~= pre_out.take(j as int) + seq![x] + pre_out.skip(j as int));
            done = done + 1;
        }
    }
    proof {
        assert(input.take(done) =~= input);
    }
    out
}

/// Sets the (group-local or absolute) column of the branch at `i`.
fn set_branch_column(branches: &mut Vec<BranchInfo>, i: usize, c: usize)
    requires
        i < old(branches)@.len(),
    ensures
        final(branches)@.len() == old(branches)@.len(),
        final(branches)@[i as int]@ == (BranchView {
            visual: BranchVisView { column: Some(c), ..old(branches)@[i as int]@.visual },
            ..old(branches)@[i as int]@
        }),
        forall|j: int|
            0 <= j < final(branches)@.len() && j != i ==> final(branches)@[j] == old(branches)@[j],
{
    let ghost snap = branches@;
    let mut b = branches.remove(i);
    b.visual.column = Some(c);
    branches.insert(i, b);
    proof {
        assert forall|j: int| 0 <= j < branches@.len() && j != i implies branches@[j] == snap[j] by {
            assert(branches@ == snap.remove(i as int).insert(i as int, branches@[i as int]));
        }
        assert(branches@[i as int]@ =~= (BranchView {
            visual: BranchVisView { column: Some(c), ..snap[i as int]@.visual },
            ..snap[i as int]@
        }));
    }
}

/// Sorts branches into columns, so that all branches can be visualized
/// linearly and without overlaps, using shortest-first (or longest-first)
/// interval scheduling per order group.
#[verifier::loop_isolation(true)]
#[verifier::rlimit(100)]
pub fn assign_branch_columns(
    commits: &Vec<CommitInfo>,
    indices: &HashMap<u64, usize>,
    branches: &mut Vec<BranchInfo>,
    settings: &BranchSettings,
    shortest_first: bool,
    forward: bool,
)
    requires
        columns_unset(old(branches)@.map_values(|b: BranchInfo| b@)),
        settings.order@.len() < usize::MAX,
    ensures
        final(branches)@.map_values(|b: BranchInfo| b@) == spec_assign_columns(
            commits@.map_values(|c: CommitInfo| c@),
            old(branches)@.map_values(|b: BranchInfo| b@),
            indices@,
            settings.order@.len() as int,
            shortest_first,
            forward,
        ),
        final(branches)@.len() == old(branches)@.len(),
{
    let ghost cs = commits@.map_values(|c: CommitInfo| c@);
    let ghost bs0 = branches@.map_values(|b: BranchInfo| b@);
    let ghost m = indices@;
    let norder = settings.order.len();
    let nb = branches.len();
    let dflt = norder + 1;
    // the per-group open columns
    let mut occupied: Vec<Vec<Vec<(usize, usize)>>> = Vec::new();
    let mut g: usize = 0;
    while g < norder + 1
        invariant
            norder < usize::MAX,
            g <= norder + 1,
            occupied@.len() == g,
            forall|k: int| 0 <= k < g ==> (#[trigger] occupied@[k])@.len() == 0,
        decreases norder + 1 - g,
    {
        occupied.push(Vec::new());
        g += 1;
    }
    let ghost occ0 = Seq::<Seq<Seq<(usize, usize)>>>::new((norder + 1) as nat, |gg: int| Seq::empty());
    proof {
        assert(occupied@.map_values(|v: Vec<Vec<(usize, usize)>>| v@.map_values(|c: Vec<(usize, usize)>| c@))
            =~~= occ0);
    }
    // prepare the branches that take part
    let mut items: Vec<ColItem> = Vec::new();
    let mut i: usize = 0;
    while i < nb
        invariant
            i <= nb,
            nb == bs0.len(),
            branches@.len() == nb,
            bs0 == branches@.map_values(|b: BranchInfo| b@),
            dflt == norder + 1,
            spec_build_items(bs0, 0, dflt) =~= items@ + spec_build_items(bs0, i as int, dflt),
        decreases nb - i,
    {
        let b = &branches[i];
        if b.range.0.is_some() || b.range.1.is_some() {
            let st: usize = match b.range.0 {
                Some(v) => v,
                None => 0,
            };
            let en: usize = match b.range.1 {
                Some(v) => v,
                None => nb - 1,
            };
            let sog: usize = match b.visual.source_order_group {
                Some(v) => v,
                None => dflt,
            };
            let tog: usize = match b.visual.target_order_group {
                Some(v) => v,
                None => dflt,
            };
            let ghost pre_items = items@;
            items.push((i, st, en, sog, tog));
            proof {
                assert(spec_build_items(bs0, i as int, dflt) =~= seq![(i, st, en, sog, tog)]
                    + spec_build_items(bs0, i as int + 1, dflt));
                assert(pre_items + spec_build_items(bs0, i as int, dflt) =~= items@
                    + spec_build_items(bs0, i as int + 1, dflt));
            }
        } else {
            proof {
                assert(spec_build_items(bs0, i as int, dflt) =~= Seq::<ColItem>::empty()
                    + spec_build_items(bs0, i as int + 1, dflt));
                assert(items@ + (Seq::<ColItem>::empty() + spec_build_items(
                    bs0,
                    i as int + 1,
                    dflt,
                )) =~= items@ + spec_build_items(bs0, i as int + 1, dflt));
            }
        }
        i += 1;
    }
    proof {
        assert(spec_build_items(bs0, nb as int, dflt) =~= Seq::<ColItem>::empty());
        assert(items@ + Seq::<ColItem>::empty() =~= items@);
        lemma_build_items_bounds(bs0, 0, dflt);
    }
    let items_sorted = sort_items(items, shortest_first, forward);
    let ghost sitems = spec_sort_items(spec_build_items(bs0, 0, dflt), shortest_first, forward);
    proof {
        lemma_sort_items_bounds(spec_build_items(bs0, 0, dflt), shortest_first, forward);
    }
    let nitems = items_sorted.len();
    let mut i: usize = 0;
    while i < nitems
        invariant
            i <= nitems,
            m == indices@,
            cs == commits@.map_values(|c: CommitInfo| c@),
            commits@.len() == cs.len(),
            nb == bs0.len(),
            nitems == sitems.len(),
            nitems <= nb,
            items_sorted@ == sitems,
            branches@.len() == nb,
            occupied@.len() == norder + 1,
            spec_place_from(cs, occ0, bs0, m, sitems, 0) == spec_place_from(
                cs,
                occupied@.map_values(
                    |v: Vec<Vec<(usize, usize)>>| v@.map_values(|c: Vec<(usize, usize)>| c@),
                ),
                branches@.map_values(|b: BranchInfo| b@),
                m,
                sitems,
                i as int,
            ),
        decreases nitems - i,
    {
        let ghost pre_occ = occupied@.map_values(
            |v: Vec<Vec<(usize, usize)>>| v@.map_values(|c: Vec<(usize, usize)>| c@),
        );
        let ghost pre_bs = branches@.map_values(|b: BranchInfo| b@);
        let it = items_sorted[i];
        let bidx = it.0;
        let start = it.1;
        let end = it.2;
        if bidx < branches.len() && branches[bidx].visual.order_group < occupied.len() {
            let group = branches[bidx].visual.order_group;
            let align_right = ({
                let a = match branches[bidx].source_branch {
                    Some(src) => src < branches.len() && branches[src].visual.order_group
                        > branches[bidx].visual.order_group,
                    None => false,
                };
                let b = match branches[bidx].target_branch {
                    Some(trg) => trg < branches.len() && branches[trg].visual.order_group
                        > branches[bidx].visual.order_group,
                    None => false,
                };
                a || b
            });
            proof {
                assert(align_right == spec_align_right(pre_bs, pre_bs[bidx as int]));
            }
            let reserved: Option<usize> = match branches[bidx].merge_target {
                Some(mt) => match indices.get(&mt) {
                    Some(ci) => if *ci < commits.len() {
                        match commits[*ci].branch_trace {
                            Some(tr) => if tr < branches.len() && branches[tr].visual.order_group
                                == group {
                                branches[tr].visual.column
                            } else {
                                None
                            },
                            None => None,
                        }
                    } else {
                        None
                    },
                    None => None,
                },
                None => None,
            };
            proof {
                assert(reserved == spec_reserved_col(cs, pre_bs, m, pre_bs[bidx as int]));
            }
            let ncols = occupied[group].len();
            let mut found = ncols;
            let mut k: usize = 0;
            let mut stop = false;
            while k < ncols && !stop
                invariant
                    k <= ncols,
                    found <= ncols,
                    group < occupied@.len(),
                    ncols == occupied@[group as int]@.len(),
                    occupied@.map_values(
                        |v: Vec<Vec<(usize, usize)>>| v@.map_values(|c: Vec<(usize, usize)>| c@),
                    ) == pre_occ,
                    !stop ==> found == ncols && spec_find_col(
                        pre_occ[group as int],
                        start,
                        end,
                        align_right,
                        reserved,
                        0,
                    ) == spec_find_col(
                        pre_occ[group as int],
                        start,
                        end,
                        align_right,
                        reserved,
                        k as int,
                    ),
                    stop ==> found as int == spec_find_col(
                        pre_occ[group as int],
                        start,
                        end,
                        align_right,
                        reserved,
                        0,
                    ),
                decreases ncols - k,
            {
                let index = if align_right {
                    ncols - 1 - k
                } else {
                    k
                };
                let col_ref = &occupied[group];
                let column = &col_ref[index];
                let mut occ_flag = false;
                let nint = column.len();
                let mut q: usize = 0;
                while q < nint
                    invariant
                        q <= nint,
                        nint == column@.len(),
                        occ_flag == exists|kk: int|
                            0 <= kk < q && start <= (#[trigger] column@[kk]).1 && end
                                >= column@[kk].0,
                    decreases nint - q,
                {
                    let pair = column[q];
                    if start <= pair.1 && end >= pair.0 {
                        occ_flag = true;
                    }
                    q += 1;
                }
                proof {
                    assert(occ_flag == spec_col_overlaps(pre_occ[group as int][index as int], start, end));
                }
                let mut usable = !occ_flag;
                if usable {
                    if let Some(rc) = reserved {
                        if rc == index {
                            usable = false;
                        }
                    }
                }
                if usable {
                    found = index;
                    stop = true;
                } else {
                    proof {
                        assert(spec_find_col(
                            pre_occ[group as int],
                            start,
                            end,
                            align_right,
                            reserved,
                            k as int,
                        ) == spec_find_col(
                            pre_occ[group as int],
                            start,
                            end,
                            align_right,
                            reserved,
                            k as int + 1,
                        ));
                    }
                }
                k += 1;
            }
            proof {
                if !stop {
                    assert(spec_find_col(
                        pre_occ[group as int],
                        start,
                        end,
                        align_right,
                        reserved,
                        ncols as int,
                    ) == ncols as int);
                }
                assert(found as int == spec_find_col(
                    pre_occ[group as int],
                    start,
                    end,
                    align_right,
                    reserved,
                    0,
                ));
            }
            // record the placement
            let ghost pre_group = pre_occ[group as int];
            let mut cols = occupied.remove(group);
            proof {
                assert(cols@.map_values(|c: Vec<(usize, usize)>| c@) == pre_group);
                assert(cols@.len() == ncols);
            }
            if found == cols.len() {
                let mut nc: Vec<(usize, usize)> = Vec::new();
                nc.push((start, end));
                cols.push(nc);
            } else {
                let mut col = cols.remove(found);
                col.push((start, end));
                cols.insert(found, col);
            }
            occupied.insert(group, cols);
            set_branch_column(branches, bidx, found);
            proof {
                let st = spec_place_step(cs, pre_occ, pre_bs, m, it);
                let cur_occ = occupied@.map_values(
                    |v: Vec<Vec<(usize, usize)>>| v@.map_values(|c: Vec<(usize, usize)>| c@),
                );
                let cols1 = if found as int == pre_group.len() {
                    pre_group.push(seq![(start, end)])
                } else {
                    pre_group.update(found as int, pre_group[found as int].push((start, end)))
                };
                assert(cur_occ =~~= pre_occ.update(group as int, cols1));
                assert(branches@.map_values(|b: BranchInfo| b@) =~= pre_bs.update(
                    bidx as int,
                    BranchView {
                        visual: BranchVisView {
                            column: Some(found),
                            ..pre_bs[bidx as int].visual
                        },
                        ..pre_bs[bidx as int]
                    },
                ));
                assert(st == (cur_occ, branches@.map_values(|b: BranchInfo| b@)));
            }
        } else {
            proof {
                assert(spec_place_step(cs, pre_occ, pre_bs, m, it) == (pre_occ, pre_bs));
            }
        }
        i += 1;
    }
    let ghost placed = spec_place_from(cs, occ0, bs0, m, sitems, 0);
    let ghost occ_f = occupied@.map_values(
        |v: Vec<Vec<(usize, usize)>>| v@.map_values(|c: Vec<(usize, usize)>| c@),
    );
    proof {
        assert(spec_place_from(cs, occ_f, branches@.map_values(|b: BranchInfo| b@), m, sitems, nitems as int)
            == (occ_f, branches@.map_values(|b: BranchInfo| b@)));
        assert(placed == (occ_f, branches@.map_values(|b: BranchInfo| b@)));
        assert(spec_cols_cover(occ0, bs0));
        lemma_place_cover(cs, occ0, bs0, m, sitems, 0);
        lemma_offsets_empty(occ0, occ0.len() as int);
        assert(spec_offsets(occ_f, (norder + 1) as int) <= nitems as int);
    }
    // compute the group offsets
    let ngroups = occupied.len();
    let mut group_offset: Vec<usize> = Vec::new();
    let mut acc: usize = 0;
    let mut g: usize = 0;
    while g < ngroups
        invariant
            g <= ngroups,
            ngroups == occ_f.len(),
            occupied@.map_values(
                |v: Vec<Vec<(usize, usize)>>| v@.map_values(|c: Vec<(usize, usize)>| c@),
            ) == occ_f,
            occupied@.len() == ngroups,
            group_offset@.len() == g,
            acc as int == spec_offsets(occ_f, g as int),
            spec_offsets(occ_f, ngroups as int) <= nb,
            nitems <= nb,
            forall|j: int| 0 <= j < g ==> #[trigger] group_offset@[j] as int == spec_offsets(occ_f, j),
        decreases ngroups - g,
    {
        group_offset.push(acc);
        let l = occupied[g].len();
        proof {
            lemma_offsets_mono(occ_f, g as int + 1, ngroups as int);
        }
        acc = acc + l;
        g += 1;
    }
    // lift the group-local columns to absolute columns
    let ghost final_bs = spec_apply_offsets(occ_f, placed.1);
    let mut j: usize = 0;
    while j < nb
        invariant
            j <= nb,
            branches@.len() == nb,
            nb == placed.1.len(),
            ngroups == occ_f.len(),
            group_offset@.len() == ngroups,
            final_bs == spec_apply_offsets(occ_f, placed.1),
            spec_offsets(occ_f, ngroups as int) <= nb,
            forall|q: int| 0 <= q < ngroups ==> #[trigger] group_offset@[q] as int == spec_offsets(occ_f, q),
            forall|q: int| j <= q < nb ==> #[trigger] branches@[q]@ == placed.1[q],
            forall|q: int| 0 <= q < j ==> #[trigger] branches@[q]@ == final_bs[q],
            spec_cols_cover(occ_f, placed.1),
            spec_offsets(occ_f, ngroups as int) <= nb,
        decreases nb - j,
    {
        let ghost pre = branches@;
        let copt = branches[j].visual.column;
        if let Some(c) = copt {
            let og = branches[j].visual.order_group;
            proof {
                assert(branches@[j as int]@ == placed.1[j as int]);
                assert(placed.1[j as int].visual.column is Some);
                assert(og < ngroups);
                lemma_offsets_mono(occ_f, og as int + 1, ngroups as int);
                assert(c < occ_f[og as int].len());
            }
            let off = group_offset[og];
            set_branch_column(branches, j, c + off);
        }
        proof {
            assert(branches@ =~= pre.update(j as int, branches@[j as int]));
            assert(branches@[j as int]@ =~= final_bs[j as int]);
        }
        j += 1;
    }
    proof {
        assert(branches@.map_values(|b: BranchInfo| b@) =~= final_bs);
    }
}

/// Every prepared item carries exactly its branch's interval and neighbor
/// groups.
proof fn lemma_build_items_shape(bs: Seq<BranchView>, i: int, dflt: usize)
    requires
        0 <= i <= bs.len(),
        bs.len() <= usize::MAX,
    ensures
        forall|k: int|
            0 <= k < spec_build_items(bs, i, dflt).len() ==> (#[trigger] spec_build_items(
                bs,
                i,
                dflt,
            )[k]) == spec_item_of(bs, spec_build_items(bs, i, dflt)[k].0 as int, dflt)
                && spec_build_items(bs, i, dflt)[k].0 < bs.len(),
    decreases bs.len() - i,
{
    if i < bs.len() {
        lemma_build_items_shape(bs, i + 1, dflt);
        let r = spec_build_items(bs, i, dflt);
        let hd = if bs[i].range.0 is Some || bs[i].range.1 is Some {
            1int
        } else {
            0int
        };
        assert forall|k: int|
            0 <= k < r.len() implies (#[trigger] r[k]) == spec_item_of(bs, r[k].0 as int, dflt)
            && r[k].0 < bs.len() by {
            if k >= hd {
                assert(r[k] == spec_build_items(bs, i + 1, dflt)[k - hd]);
            } else {
                assert(r[k] == spec_item_of(bs, i, dflt));
            }
        }
    }
}

/// A scan that ends inside the columns found a usable one.
proof fn lemma_find_col_usable(
    cols: Seq<Seq<(usize, usize)>>,
    start: usize,
    end: usize,
    align_right: bool,
    reserved: Option<usize>,
    k: int,
)
    requires
        0 <= k,
    ensures
        ({
            let f = spec_find_col(cols, start, end, align_right, reserved, k);
            f < cols.len() ==> !spec_col_overlaps(cols[f], start, end)
        }),
    decreases cols.len() - k,
{
    if k < cols.len() {
        lemma_find_col_usable(cols, start, end, align_right, reserved, k + 1);
    }
}

/// The packing invariant: branch ranges and groups are untouched, every
/// placed branch's interval sits in its column, and no two placed branches
/// in one group share a column while their intervals overlap.
pub open spec fn spec_pack_inv(
    occ: Seq<Seq<Seq<(usize, usize)>>>,
    bs: Seq<BranchView>,
    bs0: Seq<BranchView>,
) -> bool {
    &&& bs.len() == bs0.len()
    &&& forall|q: int|
        0 <= q < bs.len() ==> (#[trigger] bs[q]).range == bs0[q].range && bs[q].visual.order_group
            == bs0[q].visual.order_group
    &&& spec_cols_cover(occ, bs)
    &&& forall|q: int|
        0 <= q < bs.len() && (#[trigger] bs[q]).visual.column is Some ==> occ[bs[q].visual.order_group as int][bs[q].visual.column->0 as int].contains(
            (spec_range_start(bs0[q]), spec_range_end(bs0[q], bs0.len() as int)),
        )
    &&& forall|q1: int, q2: int|
        0 <= q1 < bs.len() && 0 <= q2 < bs.len() && q1 != q2 && (#[trigger] bs[q1]).visual.column
            is Some && (#[trigger] bs[q2]).visual.column is Some && bs[q1].visual.order_group
            == bs[q2].visual.order_group && bs[q1].visual.column == bs[q2].visual.column
            ==> !spec_ranges_overlap(bs0[q1], bs0[q2], bs0.len() as int)
}

/// Packing preserves the packing invariant.
proof fn lemma_place_from_separates(
    cs: Seq<CommitView>,
    occ: Seq<Seq<Seq<(usize, usize)>>>,
    bs: Seq<BranchView>,
    m: Map<u64, usize>,
    items: Seq<ColItem>,
    i: int,
    bs0: Seq<BranchView>,
    dflt: usize,
)
    requires
        0 <= i <= items.len(),
        bs0.len() <= usize::MAX,
        spec_offsets(occ, occ.len() as int) + (items.len() - i) <= bs0.len(),
        spec_pack_inv(occ, bs, bs0),
        forall|k: int|
            0 <= k < items.len() ==> (#[trigger] items[k]) == spec_item_of(
                bs0,
                items[k].0 as int,
                dflt,
            ) && items[k].0 < bs0.len(),
    ensures
        ({
            let r = spec_place_from(cs, occ, bs, m, items, i);
            spec_pack_inv(r.0, r.1, bs0)
        }),
    decreases items.len() - i,
{
    if i < items.len() {
        let st = spec_place_step(cs, occ, bs, m, items[i]);
        let it = items[i];
        let b = bs[it.0 as int];
        let group = b.visual.order_group as int;
        if 0 <= it.0 < bs.len() && 0 <= group < occ.len() {
            let cols = occ[group];
            let reserved = spec_reserved_col(cs, bs, m, b);
            let found = spec_find_col(cols, it.1, it.2, spec_align_right(bs, b), reserved, 0);
            lemma_find_col_bounds(cols, it.1, it.2, spec_align_right(bs, b), reserved, 0);
            lemma_find_col_usable(cols, it.1, it.2, spec_align_right(bs, b), reserved, 0);
            let interval = (it.1, it.2);
            let cols1 = if found == cols.len() {
                cols.push(seq![interval])
            } else {
                cols.update(found, cols[found].push(interval))
            };
            lemma_offsets_mono(occ, 0, group);
            lemma_offsets_mono(occ, group + 1, occ.len() as int);
            assert(spec_offsets(occ, group + 1) == spec_offsets(occ, group) + cols.len());
            assert(cols.len() <= bs0.len());
            assert(found <= cols.len());
            assert((found as usize) as int == found);
            lemma_offsets_update(occ, group, cols1, occ.len() as int);
            assert(st.0 == occ.update(group, cols1));
            assert(it.1 == spec_range_start(bs0[it.0 as int]));
            assert(it.2 == spec_range_end(bs0[it.0 as int], bs0.len() as int));
            // membership is kept, and holds for the newly placed branch
            assert(cols1.len() >= cols.len());
            assert(st.0[group] == cols1);
            assert(st.0.len() == occ.len());
            assert(cols1[found].contains(interval)) by {
                if found == cols.len() {
                    assert(cols1[found] == seq![interval]);
                    assert(cols1[found][0] == interval);
                } else {
                    assert(cols1[found] == cols[found].push(interval));
                    assert(cols1[found][cols[found].len() as int] == interval);
                }
            }
            assert(st.0 == occ.update(group, cols1));
            assert(st.1 == bs.update(
                it.0 as int,
                BranchView {
                    visual: BranchVisView { column: Some(found as usize), ..b.visual },
                    ..b
                },
            ));
            assert(interval == (spec_range_start(bs0[it.0 as int]), spec_range_end(
                bs0[it.0 as int],
                bs0.len() as int,
            )));
            assert forall|q: int|
                0 <= q < st.1.len() && (#[trigger] st.1[q]).visual.column is Some implies st.1[q].visual.order_group
                < st.0.len() && st.1[q].visual.column->0
                < st.0[st.1[q].visual.order_group as int].len() && st.0[st.1[q].visual.order_group as int][st.1[q].visual.column->0 as int].contains(
                (spec_range_start(bs0[q]), spec_range_end(bs0[q], bs0.len() as int)),
            ) by {
                if q != it.0 {
                    assert(st.1[q] == bs[q]);
                    let og = bs[q].visual.order_group as int;
                    let col = bs[q].visual.column->0 as int;
                    assert(bs[q].visual.column is Some);
                    assert(og < occ.len());
                    assert(col < occ[og].len());
                    assert(occ[og][col].contains(
                        (spec_range_start(bs0[q]), spec_range_end(bs0[q], bs0.len() as int)),
                    ));
                    if og == group {
                        assert(st.0[og] == cols1);
                        if found < cols.len() {
                            if col == found {
                                assert(cols1[col] == cols[col].push(interval));
                                let iv = (spec_range_start(bs0[q]), spec_range_end(
                                    bs0[q],
                                    bs0.len() as int,
                                ));
                                let w = choose|w: int|
                                    0 <= w < cols[col].len() && cols[col][w] == iv;
                                assert(cols[col].push(interval)[w] == iv);
                                assert(cols1[col].contains(iv));
                            } else {
                                assert(cols1[col] == cols[col]);
                            }
                        } else {
                            assert(cols1 == cols.push(seq![interval]));
                            assert(cols1[col] == cols[col]);
                        }
                        assert(col < cols1.len());
                    } else {
                        assert(st.0[og] == occ[og]);
                    }
                } else {
                    assert(st.1[q].visual.column == Some(found as usize));
                    assert(st.1[q].visual.order_group as int == group);
                    assert(st.0[group] == cols1);
                    assert(found < cols1.len());
                    assert(cols1[found].contains(interval));
                }
            }
            // no new overlapping pair shares a column
            assert forall|q1: int, q2: int|
                0 <= q1 < st.1.len() && 0 <= q2 < st.1.len() && q1 != q2 && (
            #[trigger] st.1[q1]).visual.column is Some && (#[trigger] st.1[q2]).visual.column
                is Some && st.1[q1].visual.order_group == st.1[q2].visual.order_group
                && st.1[q1].visual.column == st.1[q2].visual.column implies !spec_ranges_overlap(
                bs0[q1],
                bs0[q2],
                bs0.len() as int,
            ) by {
                if q1 != it.0 && q2 != it.0 {
                    assert(st.1[q1] == bs[q1]);
                    assert(st.1[q2] == bs[q2]);
                } else {
                    let other = if q1 == it.0 as int {
                        q2
                    } else {
                        q1
                    };
                    assert(other != it.0 as int);
                    assert(st.1[other] == bs[other]);
                    assert(st.1[it.0 as int].visual.order_group as int == group);
                    assert(st.1[it.0 as int].visual.column == Some(found as usize));
                    if bs[other].visual.order_group as int == group && bs[other].visual.column
                        == Some(found as usize) {
                        assert(bs[other].visual.column is Some);
                        assert(bs[other].visual.order_group < occ.len());
                        assert(bs[other].visual.column->0 < occ[group].len());
                        assert(bs[other].visual.column->0 == found);
                        assert(found < cols.len());
                        let iv = (spec_range_start(bs0[other]), spec_range_end(
                            bs0[other],
                            bs0.len() as int,
                        ));
                        assert(occ[group][found as int].contains(iv));
                        assert(cols[found as int].contains(iv));
                        let w = choose|w: int|
                            0 <= w < cols[found as int].len() && cols[found as int][w] == iv;
                        assert(!spec_col_overlaps(cols[found as int], it.1, it.2));
                        assert(!(it.1 <= cols[found as int][w].1 && it.2 >= cols[found as int][w].0));
                        assert(it.1 == spec_range_start(bs0[it.0 as int]));
                        assert(it.2 == spec_range_end(bs0[it.0 as int], bs0.len() as int));
                        assert(!spec_ranges_overlap(bs0[it.0 as int], bs0[other], bs0.len() as int));
                    }
                }
            }
            assert(spec_pack_inv(st.0, st.1, bs0));
        } else {
            assert(st == (occ, bs));
        }
        lemma_place_from_separates(cs, st.0, st.1, m, items, i + 1, bs0, dflt);
    }
}

/// Column non-overlap: after column assignment, two different branches in
/// the same order group whose active ranges overlap never share a column.
pub proof fn lemma_column_non_overlap(
    cs: Seq<CommitView>,
    bs: Seq<BranchView>,
    m: Map<u64, usize>,
    order_len: int,
    shortest_first: bool,
    forward: bool,
    i: int,
    j: int,
)
    requires
        columns_unset(bs),
        bs.len() <= usize::MAX,
        0 <= i < bs.len(),
        0 <= j < bs.len(),
        i != j,
        0 <= order_len,
        ({
            let r = spec_assign_columns(cs, bs, m, order_len, shortest_first, forward);
            &&& r[i].visual.column is Some
            &&& r[j].visual.column is Some
            &&& r[i].visual.order_group == r[j].visual.order_group
            &&& spec_ranges_overlap(bs[i], bs[j], bs.len() as int)
        }),
    ensures
        ({
            let r = spec_assign_columns(cs, bs, m, order_len, shortest_first, forward);
            r[i].visual.column != r[j].visual.column
        }),
{
    let dflt = (order_len + 1) as usize;
    let built = spec_build_items(bs, 0, dflt);
    let items = spec_sort_items(built, shortest_first, forward);
    let occ0 = Seq::<Seq<Seq<(usize, usize)>>>::new((order_len + 1) as nat, |g: int| Seq::empty());
    let placed = spec_place_from(cs, occ0, bs, m, items, 0);
    lemma_build_items_shape(bs, 0, dflt);
    lemma_sort_items_bounds(built, shortest_first, forward);
    assert forall|k: int|
        0 <= k < items.len() implies (#[trigger] items[k]) == spec_item_of(bs, items[k].0 as int, dflt)
        && items[k].0 < bs.len() by {
        assert(built.contains(items[k]));
        let w = choose|w: int| 0 <= w < built.len() && built[w] == items[k];
        assert(built[w] == spec_item_of(bs, built[w].0 as int, dflt));
    }
    assert(spec_pack_inv(occ0, bs, bs));
    lemma_offsets_empty(occ0, occ0.len() as int);
    lemma_build_items_bounds(bs, 0, dflt);
    assert(items.len() <= bs.len());
    lemma_place_from_separates(cs, occ0, bs, m, items, 0, bs, dflt);
    assert(spec_cols_cover(occ0, bs));
    lemma_place_cover(cs, occ0, bs, m, items, 0);
    lemma_offsets_empty(occ0, occ0.len() as int);
    lemma_build_items_bounds(bs, 0, dflt);
    let r = spec_assign_columns(cs, bs, m, order_len, shortest_first, forward);
    assert(r == spec_apply_offsets(placed.0, placed.1));
    assert(placed.1[i].visual.column is Some && placed.1[j].visual.column is Some);
    assert(placed.1[i].visual.order_group == bs[i].visual.order_group);
    assert(placed.1[j].visual.order_group == bs[j].visual.order_group);
    assert(!spec_ranges_overlap(bs[i], bs[j], bs.len() as int) || placed.1[i].visual.column
        != placed.1[j].visual.column);
    let og = placed.1[i].visual.order_group as int;
    let ci = placed.1[i].visual.column->0;
    let cj = placed.1[j].visual.column->0;
    assert(ci != cj);
    // the group offset moves both columns by the same amount, and the sums
    // stay faithful because the total column count is bounded
    assert(og < placed.0.len());
    assert(ci < placed.0[og].len());
    assert(cj < placed.0[og].len());
    lemma_offsets_mono(placed.0, og + 1, placed.0.len() as int);
    assert(spec_offsets(placed.0, placed.0.len() as int) <= items.len());
    assert(spec_offsets(placed.0, og + 1) == spec_offsets(placed.0, og) + placed.0[og].len());
    assert(ci as int + spec_offsets(placed.0, og) <= items.len() <= bs.len());
    assert(cj as int + spec_offsets(placed.0, og) <= items.len() <= bs.len());
    assert(r[i].visual.column == Some(((ci + spec_offsets(placed.0, og)) as usize)));
    assert(r[j].visual.column == Some(((cj + spec_offsets(placed.0, og)) as usize)));
    lemma_offsets_mono(placed.0, 0, og);
    assert(spec_offsets(placed.0, og) >= 0);
    assert(0 <= ci + spec_offsets(placed.0, og) <= usize::MAX);
    assert(0 <= cj + spec_offsets(placed.0, og) <= usize::MAX);
    assert(((ci + spec_offsets(placed.0, og)) as usize) as int == ci + spec_offsets(placed.0, og));
    assert(((cj + spec_offsets(placed.0, og)) as usize) as int == cj + spec_offsets(placed.0, og));
    assert((ci + spec_offsets(placed.0, og)) as usize != (cj + spec_offsets(placed.0, og)) as usize);
}

/// The column assignment changes no branch's active range.
pub proof fn lemma_columns_preserve_ranges(
    cs: Seq<CommitView>,
    bs: Seq<BranchView>,
    m: Map<u64, usize>,
    order_len: int,
    shortest_first: bool,
    forward: bool,
)
    ensures
        ({
            let r = spec_assign_columns(cs, bs, m, order_len, shortest_first, forward);
            &&& r.len() == bs.len()
            &&& forall|j: int| 0 <= j < r.len() ==> (#[trigger] r[j]).range == bs[j].range
        }),
{
    let dflt = (order_len + 1) as usize;
    let items = spec_sort_items(spec_build_items(bs, 0, dflt), shortest_first, forward);
    let occ0 = Seq::<Seq<Seq<(usize, usize)>>>::new((order_len + 1) as nat, |g: int| Seq::empty());
    lemma_place_from_ranges(cs, occ0, bs, m, items, 0);
    let placed = spec_place_from(cs, occ0, bs, m, items, 0);
    let r = spec_assign_columns(cs, bs, m, order_len, shortest_first, forward);
    assert(r == spec_apply_offsets(placed.0, placed.1));
    assert forall|j: int| 0 <= j < r.len() implies (#[trigger] r[j]).range == bs[j].range by {
        assert(placed.1[j].range == bs[j].range);
    }
}

proof fn lemma_place_from_ranges(
    cs: Seq<CommitView>,
    occ: Seq<Seq<Seq<(usize, usize)>>>,
    bs: Seq<BranchView>,
    m: Map<u64, usize>,
    items: Seq<ColItem>,
    i: int,
)
    requires
        0 <= i <= items.len(),
    ensures
        ({
            let r = spec_place_from(cs, occ, bs, m, items, i);
            &&& r.1.len() == bs.len()
            &&& forall|j: int| 0 <= j < bs.len() ==> (#[trigger] r.1[j]).range == bs[j].range
        }),
    decreases items.len() - i,
{
    if i < items.len() {
        let st = spec_place_step(cs, occ, bs, m, items[i]);
        let it = items[i];
        let b = bs[it.0 as int];
        let group = b.visual.order_group as int;
        if 0 <= it.0 < bs.len() && 0 <= group < occ.len() {
            assert forall|j: int| 0 <= j < bs.len() implies (#[trigger] st.1[j]).range
                == bs[j].range by {
                if j != it.0 {
                    assert(st.1[j] == bs[j]);
                }
            }
        } else {
            assert(st == (occ, bs));
        }
        lemma_place_from_ranges(cs, st.0, st.1, m, items, i + 1);
        let r = spec_place_from(cs, occ, bs, m, items, i);
        assert forall|j: int| 0 <= j < bs.len() implies (#[trigger] r.1[j]).range
            == bs[j].range by {
            assert(st.1[j].range == bs[j].range);
        }
    }
}

} // verus!
