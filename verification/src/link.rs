//! Relationship linker: renames fork branches that share their name with
//! the branch that absorbed them, and records, per branch, where it forked
//! from and where it merged into.

use vstd::prelude::*;

use std::collections::HashMap;

use crate::catalog::branch_color;
use crate::catalog::branch_order;
use crate::catalog::catalog_wf;
use crate::catalog::spec_branch_color;
use crate::catalog::spec_branch_order;
use crate::colors::spec_terminal_color;
use crate::colors::to_terminal_color;
use crate::graph::BranchInfo;
use crate::graph::BranchView;
use crate::graph::BranchVisView;
use crate::graph::CommitInfo;
use crate::graph::CommitView;
use crate::graph::set_branch_fork_name;
use crate::graph::with_fork_name;
use crate::settings::Settings;
use crate::text::str_eq;

verus! {

broadcast use vstd::std_specs::hash::group_hash_axioms;

/// The branch that absorbed branch `b` by a merge: the trace of the commit
/// its merge target points to, when everything is in range.
pub open spec fn spec_merge_trace(
    cs: Seq<CommitView>,
    bs_len: int,
    m: Map<u64, usize>,
    b: BranchView,
) -> Option<usize> {
    match b.merge_target {
        Some(mt) => if m.contains_key(mt) && m[mt] < cs.len() {
            match cs[m[mt] as int].branch_trace {
                Some(tr) => if tr < bs_len {
                    Some(tr)
                } else {
                    None
                },
                None => None,
            }
        } else {
            None
        },
        None => None,
    }
}

/// One branch of the fork correction: a merge-derived branch whose name
/// equals the name of the branch that absorbed it is renamed with a
/// `fork/` prefix and recolored, or the color lookup fails.
pub open spec fn spec_fork_step(
    cs: Seq<CommitView>,
    bs: Seq<BranchView>,
    m: Map<u64, usize>,
    bsettings: crate::settings::BranchSettings,
    i: int,
) -> Result<Seq<BranchView>, Seq<char>> {
    let b = bs[i];
    match spec_merge_trace(cs, bs.len() as int, m, b) {
        Some(tr) => if bs[tr as int].name == b.name {
            let name1 = "fork/"@ + b.name;
            let term_name = spec_branch_color(
                name1,
                bsettings.terminal_colors@,
                bsettings.terminal_colors_unknown@,
                i,
            );
            match spec_terminal_color(term_name) {
                None => Err("Color "@ + term_name + " not found"@),
                Some(tc) => Ok(
                    bs.update(
                        i,
                        with_fork_name(
                            b,
                            name1,
                            spec_branch_order(name1, bsettings.order@) as usize,
                            tc,
                            spec_branch_color(
                                name1,
                                bsettings.svg_colors@,
                                bsettings.svg_colors_unknown@,
                                i,
                            ),
                        ),
                    ),
                ),
            }
        } else {
            Ok(bs)
        },
        None => Ok(bs),
    }
}

/// The fork correction applied to the branches from `i` on.
pub open spec fn spec_correct_forks_from(
    cs: Seq<CommitView>,
    bs: Seq<BranchView>,
    m: Map<u64, usize>,
    bsettings: crate::settings::BranchSettings,
    i: int,
    n: int,
) -> Result<Seq<BranchView>, Seq<char>>
    decreases n - i,
{
    if i < 0 || i >= n {
        Ok(bs)
    } else {
        match spec_fork_step(cs, bs, m, bsettings, i) {
            Err(e) => Err(e),
            Ok(bs1) => spec_correct_forks_from(cs, bs1, m, bsettings, i + 1, n),
        }
    }
}

/// Renames branches that were merged into a branch of the same name: such a
/// lane gets a `fork/` prefix and new order group and colors, so that two
/// uses of one ref name at different points in history can be told apart.
#[verifier::loop_isolation(true)]
pub fn correct_fork_merges(
    commits: &Vec<CommitInfo>,
    indices: &HashMap<u64, usize>,
    branches: &mut Vec<BranchInfo>,
    settings: &Settings,
) -> (r: Result<(), String>)
    requires
        catalog_wf(settings.branches),
    ensures
        ({
            let spec = spec_correct_forks_from(
                commits@.map_values(|c: CommitInfo| c@),
                old(branches)@.map_values(|b: BranchInfo| b@),
                indices@,
                settings.branches,
                0,
                old(branches)@.len() as int,
            );
            match r {
                Ok(()) => spec == Ok::<_, Seq<char>>(final(branches)@.map_values(|b: BranchInfo| b@)),
                Err(e) => spec == Err::<Seq<BranchView>, _>(e@),
            }
        }),
        final(branches)@.len() == old(branches)@.len(),
{
    let ghost cs = commits@.map_values(|c: CommitInfo| c@);
    let ghost bs0 = branches@.map_values(|b: BranchInfo| b@);
    let ghost m = indices@;
    let ghost bsettings = settings.branches;
    let n = branches.len();
    let mut i: usize = 0;
    while i < n
        invariant
            i <= n,
            m == indices@,
            bsettings == settings.branches,
            catalog_wf(settings.branches),
            cs == commits@.map_values(|c: CommitInfo| c@),
            commits@.len() == cs.len(),
            branches@.len() == n,
            n == bs0.len(),
            bs0 == old(branches)@.map_values(|b: BranchInfo| b@),
            spec_correct_forks_from(cs, bs0, m, bsettings, 0, n as int)
                == spec_correct_forks_from(
                cs,
                branches@.map_values(|b: BranchInfo| b@),
                m,
                bsettings,
                i as int,
                n as int,
            ),
        decreases n - i,
    {
        let ghost pre_bs = branches@.map_values(|b: BranchInfo| b@);
        let mt_trace: Option<usize> = match branches[i].merge_target {
            Some(mt) => match indices.get(&mt) {
                Some(ci) => if *ci < commits.len() {
                    match commits[*ci].branch_trace {
                        Some(tr) => if tr < branches.len() {
                            Some(tr)
                        } else {
                            None
                        },
                        None => None,
                    }
                } else {
                    None
                },
                None => None,
            },
            None => None,
        };
        proof {
            assert(mt_trace == spec_merge_trace(cs, n as int, m, pre_bs[i as int]));
        }
        if let Some(tr) = mt_trace {
            if str_eq(branches[tr].name.as_str(), branches[i].name.as_str()) {
                proof {
                    reveal_strlit("fork/");
                }
                let mut name = String::from_str("fork/");
                name.append(branches[i].name.as_str());
                let term_name = branch_color(
                    name.as_str(),
                    &settings.branches.terminal_colors,
                    &settings.branches.terminal_colors_unknown,
                    i,
                );
                let term_col = match to_terminal_color(term_name.as_str()) {
                    Ok(c) => c,
                    Err(e) => {
                        proof {
                            assert(spec_fork_step(cs, pre_bs, m, bsettings, i as int)
                                == Err::<Seq<BranchView>, Seq<char>>(e@));
                            assert(spec_correct_forks_from(cs, pre_bs, m, bsettings, i as int, n as int)
                                == Err::<Seq<BranchView>, Seq<char>>(e@));
                        }
                        return Err(e);
                    },
                };
                let pos = branch_order(name.as_str(), &settings.branches.order);
                let svg_col = branch_color(
                    name.as_str(),
                    &settings.branches.svg_colors,
                    &settings.branches.svg_colors_unknown,
                    i,
                );
                set_branch_fork_name(branches, i, name, pos, term_col, svg_col);
                proof {
                    let st = spec_fork_step(cs, pre_bs, m, bsettings, i as int);
                    let cur = branches@.map_values(|b: BranchInfo| b@);
                    assert(cur =~= st->Ok_0);
                    assert(spec_correct_forks_from(cs, pre_bs, m, bsettings, i as int, n as int)
                        == spec_correct_forks_from(cs, cur, m, bsettings, i as int + 1, n as int));
                }
            } else {
                proof {
                    assert(spec_fork_step(cs, pre_bs, m, bsettings, i as int)
                        == Ok::<Seq<BranchView>, Seq<char>>(pre_bs));
                    assert(spec_correct_forks_from(cs, pre_bs, m, bsettings, i as int, n as int)
                        == spec_correct_forks_from(cs, pre_bs, m, bsettings, i as int + 1, n as int));
                }
            }
        } else {
            proof {
                assert(spec_fork_step(cs, pre_bs, m, bsettings, i as int)
                    == Ok::<Seq<BranchView>, Seq<char>>(pre_bs));
                assert(spec_correct_forks_from(cs, pre_bs, m, bsettings, i as int, n as int)
                    == spec_correct_forks_from(cs, pre_bs, m, bsettings, i as int + 1, n as int));
            }
        }
        i += 1;
    }
    proof {
        let cur = branches@.map_values(|b: BranchInfo| b@);
        assert(spec_correct_forks_from(cs, cur, m, bsettings, n as int, n as int)
            == Ok::<Seq<BranchView>, Seq<char>>(cur));
    }
    Ok(())
}

/// The raw trace of the commit a branch's merge target points to (no bound
/// check against the branch count).
pub open spec fn spec_raw_merge_trace(
    cs: Seq<CommitView>,
    m: Map<u64, usize>,
    b: BranchView,
) -> Option<usize> {
    match b.merge_target {
        Some(mt) => if m.contains_key(mt) && m[mt] < cs.len() {
            cs[m[mt] as int].branch_trace
        } else {
            None
        },
        None => None,
    }
}

/// A branch with its merge-target links set.
pub open spec fn with_target(
    b: BranchView,
    tb: Option<usize>,
    tog: Option<usize>,
) -> BranchView {
    BranchView { target_branch: tb, visual: BranchVisView { target_order_group: tog, ..b.visual }, ..b }
}

/// A branch with its fork-source links set where the scan found them.
pub open spec fn with_source(
    b: BranchView,
    so: Option<usize>,
    sb: Option<usize>,
) -> BranchView {
    BranchView {
        source_branch: match sb {
            Some(v) => Some(v),
            None => b.source_branch,
        },
        visual: BranchVisView {
            source_order_group: match so {
                Some(v) => Some(v),
                None => b.visual.source_order_group,
            },
            ..b.visual
        },
        ..b
    }
}

/// The target links for the branches from `i` on.
pub open spec fn spec_targets_from(
    cs: Seq<CommitView>,
    bs: Seq<BranchView>,
    m: Map<u64, usize>,
    i: int,
    n: int,
) -> Seq<BranchView>
    decreases n - i,
{
    if i < 0 || i >= n {
        bs
    } else {
        let tb = spec_raw_merge_trace(cs, m, bs[i]);
        let tog = match tb {
            Some(tr) => if tr < bs.len() {
                Some(bs[tr as int].visual.order_group)
            } else {
                None
            },
            None => None,
        };
        spec_targets_from(cs, bs.update(i, with_target(bs[i], tb, tog)), m, i + 1, n)
    }
}

/// One parent edge folded into the (max divergence order group, source
/// branch id) accumulator.
pub open spec fn spec_scan_parent(
    cs: Seq<CommitView>,
    bs: Seq<BranchView>,
    m: Map<u64, usize>,
    info: CommitView,
    acc: (Option<usize>, Option<usize>),
    p: int,
) -> (Option<usize>, Option<usize>) {
    match info.parent(p) {
        Some(par) => if m.contains_key(par) && m[par] < cs.len() {
            let par_info = cs[m[par] as int];
            if par_info.branch_trace != info.branch_trace {
                let sb = match par_info.branch_trace {
                    Some(tr) => Some(tr),
                    None => acc.1,
                };
                let group = match par_info.branch_trace {
                    Some(tr) => if tr < bs.len() {
                        Some(bs[tr as int].visual.order_group)
                    } else {
                        None
                    },
                    None => None,
                };
                let mo = match acc.0 {
                    Some(gr) => match group {
                        Some(pg) => if pg > gr {
                            group
                        } else {
                            acc.0
                        },
                        None => acc.0,
                    },
                    None => group,
                };
                (mo, sb)
            } else {
                acc
            }
        } else {
            acc
        },
        None => acc,
    }
}

/// The source links contributed by the commits from `i` on.
pub open spec fn spec_sources_from(
    cs: Seq<CommitView>,
    bs: Seq<BranchView>,
    m: Map<u64, usize>,
    i: int,
) -> Seq<BranchView>
    decreases cs.len() - i,
{
    if i < 0 || i >= cs.len() {
        bs
    } else {
        let info = cs[i];
        let acc0 = spec_scan_parent(cs, bs, m, info, (None, None), 0);
        let acc = spec_scan_parent(cs, bs, m, info, acc0, 1);
        let bs1 = match info.branch_trace {
            Some(tr) => if tr < bs.len() {
                bs.update(tr as int, with_source(bs[tr as int], acc.0, acc.1))
            } else {
                bs
            },
            None => bs,
        };
        spec_sources_from(cs, bs1, m, i + 1)
    }
}

/// Both linking passes: merge-target links per branch, then fork-source
/// links read off the commits' divergent parent edges.
pub open spec fn spec_assign_sources_targets(
    cs: Seq<CommitView>,
    bs: Seq<BranchView>,
    m: Map<u64, usize>,
) -> Seq<BranchView> {
    spec_sources_from(cs, spec_targets_from(cs, bs, m, 0, bs.len() as int), m, 0)
}

/// Sets the merge-target links of the branch at `i`; nothing else changes.
fn set_branch_target(branches: &mut Vec<BranchInfo>, i: usize, tb: Option<usize>, tog: Option<usize>)
    requires
        i < old(branches)@.len(),
    ensures
        final(branches)@.len() == old(branches)@.len(),
        final(branches)@[i as int]@ == with_target(old(branches)@[i as int]@, tb, tog),
        forall|j: int|
            0 <= j < final(branches)@.len() && j != i ==> final(branches)@[j] == old(branches)@[j],
{
    let ghost snap = branches@;
    let mut b = branches.remove(i);
    b.target_branch = tb;
    b.visual.target_order_group = tog;
    branches.insert(i, b);
    proof {
        assert forall|j: int| 0 <= j < branches@.len() && j != i implies branches@[j] == snap[j] by {
            assert(branches@ == snap.remove(i as int).insert(i as int, branches@[i as int]));
        }
        assert(branches@[i as int]@ =~= with_target(snap[i as int]@, tb, tog));
    }
}

/// Sets the fork-source links of the branch at `i` where given; nothing
/// else changes.
fn set_branch_sources(
    branches: &mut Vec<BranchInfo>,
    i: usize,
    so: Option<usize>,
    sb: Option<usize>,
)
    requires
        i < old(branches)@.len(),
    ensures
        final(branches)@.len() == old(branches)@.len(),
        final(branches)@[i as int]@ == with_source(old(branches)@[i as int]@, so, sb),
        forall|j: int|
            0 <= j < final(branches)@.len() && j != i ==> final(branches)@[j] == old(branches)@[j],
{
    let ghost snap = branches@;
    let mut b = branches.remove(i);
    if let Some(v) = so {
        b.visual.source_order_group = Some(v);
    }
    if let Some(v) = sb {
        b.source_branch = Some(v);
    }
    branches.insert(i, b);
    proof {
        assert forall|j: int| 0 <= j < branches@.len() && j != i implies branches@[j] == snap[j] by {
            assert(branches@ == snap.remove(i as int).insert(i as int, branches@[i as int]));
        }
        assert(branches@[i as int]@ =~= with_source(snap[i as int]@, so, sb));
    }
}

/// Computes, for every branch, which branch it merged into and which order
/// groups its merge target and fork source sit in; these links steer the
/// column packing.
#[verifier::loop_isolation(true)]
pub fn assign_sources_targets(
    commits: &Vec<CommitInfo>,
    indices: &HashMap<u64, usize>,
    branches: &mut Vec<BranchInfo>,
)
    ensures
        final(branches)@.map_values(|b: BranchInfo| b@) == spec_assign_sources_targets(
            commits@.map_values(|c: CommitInfo| c@),
            old(branches)@.map_values(|b: BranchInfo| b@),
            indices@,
        ),
        final(branches)@.len() == old(branches)@.len(),
{
    let ghost cs = commits@.map_values(|c: CommitInfo| c@);
    let ghost bs0 = branches@.map_values(|b: BranchInfo| b@);
    let ghost m = indices@;
    let nb = branches.len();
    let mut i: usize = 0;
    while i < nb
        invariant
            i <= nb,
            m == indices@,
            cs == commits@.map_values(|c: CommitInfo| c@),
            commits@.len() == cs.len(),
            branches@.len() == nb,
            nb == bs0.len(),
            spec_targets_from(cs, bs0, m, 0, nb as int) == spec_targets_from(
                cs,
                branches@.map_values(|b: BranchInfo| b@),
                m,
                i as int,
                nb as int,
            ),
        decreases nb - i,
    {
        let ghost pre_bs = branches@.map_values(|b: BranchInfo| b@);
        let tb: Option<usize> = match branches[i].merge_target {
            Some(mt) => match indices.get(&mt) {
                Some(ci) => if *ci < commits.len() {
                    commits[*ci].branch_trace
                } else {
                    None
                },
                None => None,
            },
            None => None,
        };
        let tog: Option<usize> = match tb {
            Some(tr) => if tr < branches.len() {
                Some(branches[tr].visual.order_group)
            } else {
                None
            },
            None => None,
        };
        proof {
            assert(tb == spec_raw_merge_trace(cs, m, pre_bs[i as int]));
        }
        set_branch_target(branches, i, tb, tog);
        proof {
            assert(branches@.map_values(|b: BranchInfo| b@) =~= pre_bs.update(
                i as int,
                with_target(pre_bs[i as int], tb, tog),
            ));
        }
        i += 1;
    }
    let ghost bs1 = spec_targets_from(cs, bs0, m, 0, nb as int);
    proof {
        assert(spec_targets_from(
            cs,
            branches@.map_values(|b: BranchInfo| b@),
            m,
            nb as int,
            nb as int,
        ) == branches@.map_values(|b: BranchInfo| b@));
        assert(branches@.map_values(|b: BranchInfo| b@) == bs1);
    }
    let nc = commits.len();
    let mut ci: usize = 0;
    while ci < nc
        invariant
            ci <= nc,
            m == indices@,
            cs == commits@.map_values(|c: CommitInfo| c@),
            nc == cs.len(),
            commits@.len() == nc,
            branches@.len() == nb,
            spec_sources_from(cs, bs1, m, 0) == spec_sources_from(
                cs,
                branches@.map_values(|b: BranchInfo| b@),
                m,
                ci as int,
            ),
        decreases nc - ci,
    {
        let ghost pre_bs = branches@.map_values(|b: BranchInfo| b@);
        let own_trace = commits[ci].branch_trace;
        let mut max_par_order: Option<usize> = None;
        let mut source_branch_id: Option<usize> = None;
        let ghost info = cs[ci as int];
        let mut p: usize = 0;
        while p < 2
            invariant
                p <= 2,
                m == indices@,
                cs == commits@.map_values(|c: CommitInfo| c@),
                commits@.len() == cs.len(),
                branches@.len() == nb,
                ci < cs.len(),
                info == cs[ci as int],
                own_trace == info.branch_trace,
                pre_bs == branches@.map_values(|b: BranchInfo| b@),
                ({
                    let acc = if p == 0 {
                        (None::<usize>, None::<usize>)
                    } else if p == 1 {
                        spec_scan_parent(cs, pre_bs, m, info, (None, None), 0)
                    } else {
                        spec_scan_parent(
                            cs,
                            pre_bs,
                            m,
                            info,
                            spec_scan_parent(cs, pre_bs, m, info, (None, None), 0),
                            1,
                        )
                    };
                    (max_par_order, source_branch_id) == acc
                }),
            decreases 2 - p,
        {
            let par = commits[ci].parent(p);
            if let Some(par_oid) = par {
                if let Some(pidx) = indices.get(&par_oid) {
                    if *pidx < commits.len() {
                        let par_trace = commits[*pidx].branch_trace;
                        if par_trace != own_trace {
                            if let Some(tr) = par_trace {
                                source_branch_id = Some(tr);
                            }
                            let group: Option<usize> = match par_trace {
                                Some(tr) => if tr < branches.len() {
                                    Some(branches[tr].visual.order_group)
                                } else {
                                    None
                                },
                                None => None,
                            };
                            match max_par_order {
                                Some(gr) => {
                                    if let Some(pg) = group {
                                        if pg > gr {
                                            max_par_order = group;
                                        }
                                    }
                                },
                                None => {
                                    max_par_order = group;
                                },
                            }
                        }
                    }
                }
            }
            p += 1;
        }
        if let Some(tr) = own_trace {
            if tr < branches.len() {
                set_branch_sources(branches, tr, max_par_order, source_branch_id);
                proof {
                    assert(branches@.map_values(|b: BranchInfo| b@) =~= pre_bs.update(
                        tr as int,
                        with_source(pre_bs[tr as int], max_par_order, source_branch_id),
                    ));
                }
            }
        }
        ci += 1;
    }
    proof {
        assert(spec_sources_from(
            cs,
            branches@.map_values(|b: BranchInfo| b@),
            m,
            nc as int,
        ) == branches@.map_values(|b: BranchInfo| b@));
    }
}

/// The fork renaming changes no branch's column.
pub proof fn lemma_forks_preserve_columns(
    cs: Seq<CommitView>,
    bs: Seq<BranchView>,
    m: Map<u64, usize>,
    bsettings: crate::settings::BranchSettings,
    i: int,
    n: int,
)
    requires
        n == bs.len(),
        forall|j: int| 0 <= j < bs.len() ==> (#[trigger] bs[j]).visual.column is None,
    ensures
        spec_correct_forks_from(cs, bs, m, bsettings, i, n) matches Ok(v) ==> v.len() == bs.len()
            && forall|j: int| 0 <= j < v.len() ==> (#[trigger] v[j]).visual.column is None,
    decreases n - i,
{
    if 0 <= i && i < n {
        match spec_fork_step(cs, bs, m, bsettings, i) {
            Err(_) => {},
            Ok(bs1) => {
                assert(bs1.len() == bs.len());
                assert forall|j: int|
                    0 <= j < bs1.len() implies (#[trigger] bs1[j]).visual.column is None by {
                    if j == i {
                        assert(bs1[j].visual.column == bs[j].visual.column);
                    } else {
                        assert(bs1[j] == bs[j]);
                    }
                }
                lemma_forks_preserve_columns(cs, bs1, m, bsettings, i + 1, n);
            },
        }
    }
}

/// The linking passes change no branch's column.
pub proof fn lemma_links_preserve_columns(
    cs: Seq<CommitView>,
    bs: Seq<BranchView>,
    m: Map<u64, usize>,
)
    requires
        forall|j: int| 0 <= j < bs.len() ==> (#[trigger] bs[j]).visual.column is None,
    ensures
        ({
            let r = spec_assign_sources_targets(cs, bs, m);
            &&& r.len() == bs.len()
            &&& forall|j: int| 0 <= j < r.len() ==> (#[trigger] r[j]).visual.column is None
        }),
{
    lemma_targets_preserve_columns(cs, bs, m, 0, bs.len() as int);
    lemma_sources_preserve_columns(cs, spec_targets_from(cs, bs, m, 0, bs.len() as int), m, 0);
}

proof fn lemma_targets_preserve_columns(
    cs: Seq<CommitView>,
    bs: Seq<BranchView>,
    m: Map<u64, usize>,
    i: int,
    n: int,
)
    requires
        n == bs.len(),
        forall|j: int| 0 <= j < bs.len() ==> (#[trigger] bs[j]).visual.column is None,
    ensures
        ({
            let r = spec_targets_from(cs, bs, m, i, n);
            &&& r.len() == bs.len()
            &&& forall|j: int| 0 <= j < r.len() ==> (#[trigger] r[j]).visual.column is None
        }),
    decreases n - i,
{
    if 0 <= i && i < n {
        let tb = spec_raw_merge_trace(cs, m, bs[i]);
        let tog = match tb {
            Some(tr) => if tr < bs.len() {
                Some(bs[tr as int].visual.order_group)
            } else {
                None
            },
            None => None,
        };
        let bs1 = bs.update(i, with_target(bs[i], tb, tog));
        assert forall|j: int| 0 <= j < bs1.len() implies (#[trigger] bs1[j]).visual.column
            is None by {
            if j == i {
                assert(bs1[j] == with_target(bs[i], tb, tog));
            } else {
                assert(bs1[j] == bs[j]);
            }
        }
        lemma_targets_preserve_columns(cs, bs1, m, i + 1, n);
    }
}

proof fn lemma_sources_preserve_columns(
    cs: Seq<CommitView>,
    bs: Seq<BranchView>,
    m: Map<u64, usize>,
    i: int,
)
    requires
        forall|j: int| 0 <= j < bs.len() ==> (#[trigger] bs[j]).visual.column is None,
    ensures
        ({
            let r = spec_sources_from(cs, bs, m, i);
            &&& r.len() == bs.len()
            &&& forall|j: int| 0 <= j < r.len() ==> (#[trigger] r[j]).visual.column is None
        }),
    decreases cs.len() - i,
{
    if 0 <= i && i < cs.len() {
        let info = cs[i];
        let acc0 = spec_scan_parent(cs, bs, m, info, (None, None), 0);
        let acc = spec_scan_parent(cs, bs, m, info, acc0, 1);
        let bs1 = match info.branch_trace {
            Some(tr) => if tr < bs.len() {
                bs.update(tr as int, with_source(bs[tr as int], acc.0, acc.1))
            } else {
                bs
            },
            None => bs,
        };
        assert(bs1.len() == bs.len());
        assert forall|j: int| 0 <= j < bs1.len() implies (#[trigger] bs1[j]).visual.column
            is None by {
            if info.branch_trace is Some && info.branch_trace->0 < bs.len() && j
                == info.branch_trace->0 {
                assert(bs1[j] == with_source(bs[j], acc.0, acc.1));
            } else {
                assert(bs1[j] == bs[j]);
            }
        }
        lemma_sources_preserve_columns(cs, bs1, m, i + 1);
    }
}

/// The fork renaming changes no branch's active range.
pub proof fn lemma_forks_preserve_ranges(
    cs: Seq<CommitView>,
    bs: Seq<BranchView>,
    m: Map<u64, usize>,
    bsettings: crate::settings::BranchSettings,
    i: int,
    n: int,
)
    requires
        n == bs.len(),
        0 <= i,
    ensures
        spec_correct_forks_from(cs, bs, m, bsettings, i, n) matches Ok(v) ==> v.len() == bs.len()
            && forall|j: int| 0 <= j < v.len() ==> (#[trigger] v[j]).range == bs[j].range,
    decreases n - i,
{
    if 0 <= i && i < n {
        match spec_fork_step(cs, bs, m, bsettings, i) {
            Err(_) => {},
            Ok(bs1) => {
                assert(bs1.len() == bs.len());
                assert forall|j: int| 0 <= j < bs1.len() implies (#[trigger] bs1[j]).range
                    == bs[j].range by {
                    if j == i {
                        assert(bs1[j].range == bs[j].range);
                    } else {
                        assert(bs1[j] == bs[j]);
                    }
                }
                lemma_forks_preserve_ranges(cs, bs1, m, bsettings, i + 1, n);
            },
        }
    }
}

/// The linking passes change no branch's active range.
pub proof fn lemma_links_preserve_ranges(
    cs: Seq<CommitView>,
    bs: Seq<BranchView>,
    m: Map<u64, usize>,
)
    ensures
        ({
            let r = spec_assign_sources_targets(cs, bs, m);
            &&& r.len() == bs.len()
            &&& forall|j: int| 0 <= j < r.len() ==> (#[trigger] r[j]).range == bs[j].range
        }),
{
    lemma_targets_preserve_ranges(cs, bs, m, 0, bs.len() as int);
    lemma_sources_preserve_ranges(cs, spec_targets_from(cs, bs, m, 0, bs.len() as int), m, 0);
}

proof fn lemma_targets_preserve_ranges(
    cs: Seq<CommitView>,
    bs: Seq<BranchView>,
    m: Map<u64, usize>,
    i: int,
    n: int,
)
    requires
        n == bs.len(),
    ensures
        ({
            let r = spec_targets_from(cs, bs, m, i, n);
            &&& r.len() == bs.len()
            &&& forall|j: int| 0 <= j < r.len() ==> (#[trigger] r[j]).range == bs[j].range
        }),
    decreases n - i,
{
    if 0 <= i && i < n {
        let tb = spec_raw_merge_trace(cs, m, bs[i]);
        let tog = match tb {
            Some(tr) => if tr < bs.len() {
                Some(bs[tr as int].visual.order_group)
            } else {
                None
            },
            None => None,
        };
        let bs1 = bs.update(i, with_target(bs[i], tb, tog));
        assert forall|j: int| 0 <= j < bs1.len() implies (#[trigger] bs1[j]).range
            == bs[j].range by {
            if j == i {
                assert(bs1[j] == with_target(bs[i], tb, tog));
            } else {
                assert(bs1[j] == bs[j]);
            }
        }
        lemma_targets_preserve_ranges(cs, bs1, m, i + 1, n);
    }
}

proof fn lemma_sources_preserve_ranges(
    cs: Seq<CommitView>,
    bs: Seq<BranchView>,
    m: Map<u64, usize>,
    i: int,
)
    ensures
        ({
            let r = spec_sources_from(cs, bs, m, i);
            &&& r.len() == bs.len()
            &&& forall|j: int| 0 <= j < r.len() ==> (#[trigger] r[j]).range == bs[j].range
        }),
    decreases cs.len() - i,
{
    if 0 <= i && i < cs.len() {
        let info = cs[i];
        let acc0 = spec_scan_parent(cs, bs, m, info, (None, None), 0);
        let acc = spec_scan_parent(cs, bs, m, info, acc0, 1);
        let bs1 = match info.branch_trace {
            Some(tr) => if tr < bs.len() {
                bs.update(tr as int, with_source(bs[tr as int], acc.0, acc.1))
            } else {
                bs
            },
            None => bs,
        };
        assert forall|j: int| 0 <= j < bs1.len() implies (#[trigger] bs1[j]).range
            == bs[j].range by {
            if info.branch_trace is Some && info.branch_trace->0 < bs.len() && j
                == info.branch_trace->0 {
                assert(bs1[j] == with_source(bs[j], acc.0, acc.1));
            } else {
                assert(bs1[j] == bs[j]);
            }
        }
        lemma_sources_preserve_ranges(cs, bs1, m, i + 1);
    }
}

} // verus!
