//! Branch tracer: walks first-parent chains backward from each candidate
//! branch's tip, claiming unclaimed commits for the branch and computing the
//! branch's active commit-index range.

use vstd::prelude::*;

use std::collections::HashMap;

use crate::graph::BranchInfo;
use crate::graph::BranchView;
use crate::graph::CommitInfo;
use crate::graph::CommitView;
use crate::graph::indices_bounded;
use crate::graph::parents_topological;
use crate::graph::set_branch_colors;
use crate::graph::set_branch_range;
use crate::graph::set_commit_trace;
use crate::graph::with_colors;
use crate::graph::with_range;
use crate::graph::with_trace;
use crate::catalog::catalog_wf;
use crate::catalog::extract_branches;
use crate::catalog::spec_catalog;
use crate::graph::CommitData;
use crate::graph::RefData;
use crate::graph::TagData;
use crate::graph::push_commit_branch_label;
use crate::graph::push_commit_tag_label;
use crate::settings::Settings;
use crate::text::spec_starts_with;
use crate::text::str_eq;
use crate::text::str_starts_with;

verus! {

broadcast use vstd::std_specs::hash::group_hash_axioms;

/// Every assigned branch trace points below `n`.
pub open spec fn traces_bounded(cs: Seq<CommitView>, n: int) -> bool {
    forall|i: int|
        0 <= i < cs.len() && (#[trigger] cs[i].branch_trace) is Some ==> cs[i].branch_trace->0 < n
}

/// `a` differs from `b` at most in the branch traces: everything else of
/// every commit is the same.
pub open spec fn traces_only_differ(a: Seq<CommitView>, b: Seq<CommitView>) -> bool {
    &&& a.len() == b.len()
    &&& forall|i: int|
        0 <= i < a.len() ==> #[trigger] a[i] == with_trace(b[i], a[i].branch_trace)
}

/// Parents are untouched by tracing, so the topological guarantee carries
/// over to any state that differs only in branch traces.
pub proof fn lemma_topo_preserved(a: Seq<CommitView>, b: Seq<CommitView>, m: Map<u64, usize>)
    requires
        traces_only_differ(a, b),
        parents_topological(b, m),
    ensures
        parents_topological(a, m),
{
    assert forall|i: int, p: int|
        0 <= i < a.len() && 0 <= p < 2 && (#[trigger] a[i].parent(p)) is Some && m.contains_key(
            a[i].parent(p)->0,
        ) implies m[a[i].parent(p)->0] > i by {
        assert(a[i].parent(p) == b[i].parent(p));
    }
}

/// The largest index among `children` other than `curr` that the index map
/// knows, starting from `init`: the merge's siblings reachable through its
/// other parent edges.
pub open spec fn spec_sibling_max(
    children: Seq<u64>,
    m: Map<u64, usize>,
    curr: u64,
    init: int,
) -> int
    decreases children.len(),
{
    if children.len() == 0 {
        init
    } else {
        let rest = spec_sibling_max(children.drop_last(), m, curr, init);
        let c = children.last();
        if c != curr && m.contains_key(c) && m[c] > rest {
            m[c] as int
        } else {
            rest
        }
    }
}

/// The backward walk of the tracer from the commit `curr`, one recursion
/// step per visited commit.
///
/// While a commit carries no trace it is claimed for `bidx` and the walk
/// advances to its first parent; a root commit ends the walk with the range
/// start at its own index.  A commit already traced by a branch of the same
/// name (whose tip is not newer) is the same logical branch continuing
/// further back: the owner's range is shrunk up to the reached commit,
/// which keeps its trace, and the walk ends there.  Any other traced commit
/// is a divergence point and ends the walk, with the range start one before
/// the conflict, or at the largest merge-sibling index when the previously
/// visited commit is a merge.
pub open spec fn spec_walk(
    cs: Seq<CommitView>,
    bs: Seq<BranchView>,
    m: Map<u64, usize>,
    bidx: int,
    curr: u64,
    prev: Option<int>,
    start: Option<int>,
    any: bool,
    fuel: nat,
) -> (Seq<CommitView>, Seq<BranchView>, Option<int>, bool)
    decreases fuel,
{
    if fuel == 0 || !m.contains_key(curr) {
        (cs, bs, start, any)
    } else {
        let index = m[curr] as int;
        let info = cs[index];
        match info.branch_trace {
            Some(old_trace) => {
                let old_b = bs[old_trace as int];
                let old_end: int = match old_b.range.0 {
                    Some(e) => e as int,
                    None => 0,
                };
                let new_end: int = match bs[bidx].range.0 {
                    Some(e) => e as int,
                    None => 0,
                };
                if old_b.name == bs[bidx].name && old_end >= new_end {
                    let range1 = match old_b.range.1 {
                        Some(oe) => if index > oe {
                            (None, None)
                        } else {
                            (Some(index as usize), old_b.range.1)
                        },
                        None => (Some(index as usize), old_b.range.1),
                    };
                    let bs1 = bs.update(old_trace as int, with_range(old_b, range1));
                    (cs, bs1, start, any)
                } else {
                    let bs1 = if spec_starts_with(bs[bidx].name, "origin/"@) && bs[bidx].name.skip(
                        "origin/"@.len() as int,
                    ) == old_b.name {
                        bs.update(
                            bidx,
                            with_colors(bs[bidx], old_b.visual.term_color, old_b.visual.svg_color),
                        )
                    } else {
                        bs
                    };
                    let start1 = match prev {
                        None => Some(index - 1),
                        Some(pi) => if cs[pi].is_merge {
                            Some(spec_sibling_max(info.children, m, curr, pi))
                        } else {
                            Some(index - 1)
                        },
                    };
                    (cs, bs1, start1, any)
                }
            },
            None => {
                let cs1 = cs.update(index, with_trace(info, Some(bidx as usize)));
                if info.parent0 is None {
                    (cs1, bs, Some(index), true)
                } else {
                    spec_walk(
                        cs1,
                        bs,
                        m,
                        bidx,
                        info.parent0->0,
                        Some(index),
                        start,
                        true,
                        (fuel - 1) as nat,
                    )
                }
            },
        }
    }
}


/// The walk claims only commits that carry no trace yet: a commit already
/// owned by a branch is never reassigned, so at most one branch ever owns
/// any commit and later walks observe earlier claims.
pub proof fn lemma_walk_no_reassign(
    cs: Seq<CommitView>,
    bs: Seq<BranchView>,
    m: Map<u64, usize>,
    bidx: int,
    curr: u64,
    prev: Option<int>,
    start: Option<int>,
    any: bool,
    fuel: nat,
)
    requires
        indices_bounded(m, cs.len() as int),
    ensures
        ({
            let r = spec_walk(cs, bs, m, bidx, curr, prev, start, any, fuel);
            &&& forall|i: int|
                0 <= i < cs.len() && (#[trigger] cs[i].branch_trace) is Some ==> r.0[i].branch_trace
                    == cs[i].branch_trace
            &&& forall|i: int|
                0 <= i < cs.len() && (#[trigger] r.0[i].branch_trace) is Some ==> (cs[i].branch_trace
                    is Some || r.0[i].branch_trace == Some(bidx as usize))
        }),
    decreases fuel,
{
    if fuel != 0 && m.contains_key(curr) {
        let index = m[curr] as int;
        let info = cs[index];
        match info.branch_trace {
            Some(_) => {},
            None => {
                let cs1 = cs.update(index, with_trace(info, Some(bidx as usize)));
                if !(info.parent0 is None) {
                    lemma_walk_no_reassign(
                        cs1,
                        bs,
                        m,
                        bidx,
                        info.parent0->0,
                        Some(index),
                        start,
                        true,
                        (fuel - 1) as nat,
                    );
                    let r = spec_walk(
                        cs1,
                        bs,
                        m,
                        bidx,
                        info.parent0->0,
                        Some(index),
                        start,
                        true,
                        (fuel - 1) as nat,
                    );
                    assert forall|i: int|
                        0 <= i < cs.len() && (#[trigger] cs[i].branch_trace) is Some implies r.0[i].branch_trace
                        == cs[i].branch_trace by {
                        assert(i != index);
                        assert(cs1[i].branch_trace == cs[i].branch_trace);
                    }
                    assert forall|i: int|
                        0 <= i < cs.len() && (#[trigger] r.0[i].branch_trace) is Some implies (
                    cs[i].branch_trace is Some || r.0[i].branch_trace == Some(bidx as usize)) by {
                        if i != index {
                            assert(cs1[i].branch_trace == cs[i].branch_trace);
                        } else {
                            assert(cs1[i].branch_trace == Some(bidx as usize));
                            assert(r.0[i].branch_trace == cs1[i].branch_trace);
                        }
                    }
                }
            },
        }
    }
}

/// The range fixup after the walk: an inverted range (start before end)
/// marks the branch unassigned, otherwise the walk's start index closes the
/// range.
pub open spec fn spec_trace_fixup(bs: Seq<BranchView>, bidx: int, start: Option<int>) -> Seq<
    BranchView,
> {
    let br = bs[bidx];
    let newr = match br.range.0 {
        Some(end) => match start {
            Some(si) => if si < end {
                (None, None)
            } else {
                (Some(end), Some(si as usize))
            },
            None => (Some(end), None),
        },
        None => (
            None,
            match start {
                Some(si) => Some(
                    if si >= 0 {
                        si as usize
                    } else {
                        0
                    },
                ),
                None => None,
            },
        ),
    };
    bs.update(bidx, with_range(br, newr))
}

/// The whole trace of one branch: the walk from `oid`, then the range
/// fixup; the boolean says whether any commit was claimed.
pub open spec fn spec_trace_branch(
    cs: Seq<CommitView>,
    bs: Seq<BranchView>,
    m: Map<u64, usize>,
    oid: u64,
    bidx: int,
) -> (Seq<CommitView>, Seq<BranchView>, bool) {
    let walked = spec_walk(cs, bs, m, bidx, oid, None, None, false, (cs.len() + 1) as nat);
    (walked.0, spec_trace_fixup(walked.1, bidx, walked.2), walked.3)
}

/// Traces back a branch from `oid`, following first parents, until a commit
/// is reached that already has a trace; claims every commit passed on the
/// way and closes the branch's active range.
#[verifier::loop_isolation(true)]
pub fn trace_branch(
    commits: &mut Vec<CommitInfo>,
    indices: &HashMap<u64, usize>,
    branches: &mut Vec<BranchInfo>,
    oid: u64,
    branch_index: usize,
) -> (any: bool)
    requires
        branch_index < old(branches)@.len(),
        indices_bounded(indices@, old(commits)@.len() as int),
        parents_topological(old(commits)@.map_values(|c: CommitInfo| c@), indices@),
        traces_bounded(old(commits)@.map_values(|c: CommitInfo| c@), old(branches)@.len() as int),
    ensures
        ({
            let spec = spec_trace_branch(
                old(commits)@.map_values(|c: CommitInfo| c@),
                old(branches)@.map_values(|b: BranchInfo| b@),
                indices@,
                oid,
                branch_index as int,
            );
            &&& final(commits)@.map_values(|c: CommitInfo| c@) == spec.0
            &&& final(branches)@.map_values(|b: BranchInfo| b@) == spec.1
            &&& any == spec.2
        }),
        final(commits)@.len() == old(commits)@.len(),
        final(branches)@.len() == old(branches)@.len(),
        traces_only_differ(
            final(commits)@.map_values(|c: CommitInfo| c@),
            old(commits)@.map_values(|c: CommitInfo| c@),
        ),
        traces_bounded(final(commits)@.map_values(|c: CommitInfo| c@), old(branches)@.len() as int),
        forall|i: int|
            0 <= i < old(commits)@.len() && (#[trigger] old(commits)@[i]@.branch_trace) is Some
                ==> final(commits)@[i]@.branch_trace == old(commits)@[i]@.branch_trace,
{
    let ghost cs0 = old(commits)@.map_values(|c: CommitInfo| c@);
    let ghost bs0 = old(branches)@.map_values(|b: BranchInfo| b@);
    let ghost m = indices@;
    let ghost fuel0: nat = (cs0.len() + 1) as nat;
    let n = commits.len();
    let mut curr_oid = oid;
    let mut prev_index: Option<usize> = None;
    let mut start_index: Option<usize> = None;
    let mut start_neg: bool = false;
    let mut any_assigned = false;
    let ghost mut fuel: nat = fuel0;
    loop
        invariant_except_break
            m == indices@,
            indices_bounded(m, n as int),
            parents_topological(cs0, m),
            fuel0 == cs0.len() + 1,
            commits@.len() == n,
            n == cs0.len(),
            branches@.len() == bs0.len(),
            branch_index < bs0.len(),
            traces_only_differ(commits@.map_values(|c: CommitInfo| c@), cs0),
            traces_bounded(commits@.map_values(|c: CommitInfo| c@), bs0.len() as int),
            m.contains_key(curr_oid) ==> fuel >= cs0.len() + 1 - m[curr_oid],
            prev_index matches Some(pi) ==> pi < n,
            spec_walk(
                commits@.map_values(|c: CommitInfo| c@),
                branches@.map_values(|b: BranchInfo| b@),
                m,
                branch_index as int,
                curr_oid,
                match prev_index {
                    Some(pi) => Some(pi as int),
                    None => None,
                },
                match start_index {
                    Some(si) => if start_neg {
                        Some(-1)
                    } else {
                        Some(si as int)
                    },
                    None => None,
                },
                any_assigned,
                fuel,
            ) == spec_walk(cs0, bs0, m, branch_index as int, oid, None, None, false, fuel0),
        ensures
            commits@.len() == n,
            branches@.len() == bs0.len(),
            traces_only_differ(commits@.map_values(|c: CommitInfo| c@), cs0),
            traces_bounded(commits@.map_values(|c: CommitInfo| c@), bs0.len() as int),
            ({
                let walked = spec_walk(
                    cs0,
                    bs0,
                    m,
                    branch_index as int,
                    oid,
                    None,
                    None,
                    false,
                    fuel0,
                );
                &&& commits@.map_values(|c: CommitInfo| c@) == walked.0
                &&& branches@.map_values(|b: BranchInfo| b@) == walked.1
                &&& (match start_index {
                    Some(si) => if start_neg {
                        Some(-1)
                    } else {
                        Some(si as int)
                    },
                    None => None,
                }) == walked.2
                &&& any_assigned == walked.3
            }),
        decreases fuel,
    {
        let ghost pre_cs = commits@.map_values(|c: CommitInfo| c@);
        let ghost pre_bs = branches@.map_values(|b: BranchInfo| b@);
        let ghost pre_start: Option<int> = match start_index {
            Some(si) => Some(si as int),
            None => None,
        };
        let ghost pre_prev: Option<int> = match prev_index {
            Some(pi) => Some(pi as int),
            None => None,
        };
        let ghost pre_any = any_assigned;
        let ghost curr_at_head = curr_oid;
        proof {
            lemma_topo_preserved(pre_cs, cs0, m);
        }
        let index: usize = match indices.get(&curr_oid) {
            Some(i) => *i,
            None => {
                break ;
            },
        };
        let info_trace = commits[index].branch_trace;
        if let Some(old_trace) = info_trace {
            let names_eq = str_eq(branches[old_trace].name.as_str(), branches[branch_index].name.as_str());
            let old_end: usize = match branches[old_trace].range.0 {
                Some(e) => e,
                None => 0,
            };
            let new_end: usize = match branches[branch_index].range.0 {
                Some(e) => e,
                None => 0,
            };
            if names_eq && old_end >= new_end {
                // the same logical branch continuing further back: shrink the
                // owner's range, keep the commit's trace, and stop here
                let range1: (Option<usize>, Option<usize>) = match branches[old_trace].range.1 {
                    Some(oe) => if index > oe {
                        (None, None)
                    } else {
                        (Some(index), branches[old_trace].range.1)
                    },
                    None => (Some(index), branches[old_trace].range.1),
                };
                set_branch_range(branches, old_trace, range1);
                proof {
                    assert(branches@.map_values(|b: BranchInfo| b@) =~= pre_bs.update(
                        old_trace as int,
                        with_range(pre_bs[old_trace as int], range1),
                    ));
                    assert(spec_walk(
                        pre_cs,
                        pre_bs,
                        m,
                        branch_index as int,
                        curr_oid,
                        pre_prev,
                        pre_start,
                        pre_any,
                        fuel,
                    ) == (
                        commits@.map_values(|c: CommitInfo| c@),
                        branches@.map_values(|b: BranchInfo| b@),
                        pre_start,
                        any_assigned,
                    ));
                }
                break ;
            } else {
                proof {
                    reveal_strlit("origin/");
                }
                let bname_len = branches[branch_index].name.as_str().unicode_len();
                let inherits = str_starts_with(branches[branch_index].name.as_str(), "origin/")
                    && str_eq(
                    branches[branch_index].name.as_str().substring_char(7, bname_len),
                    branches[old_trace].name.as_str(),
                );
                if inherits {
                    let old_term = branches[old_trace].visual.term_color;
                    let old_svg = branches[old_trace].visual.svg_color.clone();
                    set_branch_colors(branches, branch_index, old_term, old_svg);
                    proof {
                        assert(branches@.map_values(|b: BranchInfo| b@) =~= pre_bs.update(
                            branch_index as int,
                            with_colors(
                                pre_bs[branch_index as int],
                                pre_bs[old_trace as int].visual.term_color,
                                pre_bs[old_trace as int].visual.svg_color,
                            ),
                        ));
                    }
                }
                let is_merge_prev = match prev_index {
                    Some(pi) => commits[pi].is_merge,
                    None => false,
                };
                if prev_index.is_some() && is_merge_prev {
                    let pi = prev_index.unwrap();
                    let mut temp: usize = pi;
                    let nch = commits[index].children.len();
                    let ghost children = commits@.map_values(|c: CommitInfo| c@)[index as int].children;
                    let mut k: usize = 0;
                    while k < nch
                        invariant
                            k <= nch,
                            nch == children.len(),
                            index < n,
                            pi < n,
                            commits@.len() == n,
                            m == indices@,
                            indices_bounded(m, n as int),
                            children == commits@.map_values(|c: CommitInfo| c@)[index as int].children,
                            temp as int == spec_sibling_max(children.take(k as int), m, curr_oid, pi as int),
                            temp < n,
                        decreases nch - k,
                    {
                        let sib = commits[index].children[k];
                        proof {
                            assert(children.take(k as int + 1).drop_last() =~= children.take(k as int));
                            assert(children.take(k as int + 1).last() == children[k as int]);
                        }
                        if sib != curr_oid {
                            if let Some(si) = indices.get(&sib) {
                                if *si > temp {
                                    temp = *si;
                                }
                            }
                        }
                        k += 1;
                    }
                    proof {
                        assert(children.take(nch as int) =~= children);
                    }
                    start_index = Some(temp);
                    start_neg = false;
                } else {
                    if index == 0 {
                        start_index = Some(0);
                        start_neg = true;
                    } else {
                        start_index = Some(index - 1);
                        start_neg = false;
                    }
                }
                proof {
                    assert(spec_walk(
                        pre_cs,
                        pre_bs,
                        m,
                        branch_index as int,
                        curr_oid,
                        pre_prev,
                        pre_start,
                        any_assigned,
                        fuel,
                    ) == (
                        commits@.map_values(|c: CommitInfo| c@),
                        branches@.map_values(|b: BranchInfo| b@),
                        match start_index {
                            Some(si) => if start_neg {
                                Some(-1)
                            } else {
                                Some(si as int)
                            },
                            None => None,
                        },
                        any_assigned,
                    ));
                }
                break ;
            }
        }
        // claim the commit for this branch and step to the first parent
        let ghost mid_bs = branches@.map_values(|b: BranchInfo| b@);
        set_commit_trace(commits, index, Some(branch_index));
        any_assigned = true;
        proof {
            assert(commits@.map_values(|c: CommitInfo| c@) =~= pre_cs.update(
                index as int,
                with_trace(pre_cs[index as int], Some(branch_index)),
            ));
            let cur = commits@.map_values(|c: CommitInfo| c@);
            assert forall|i2: int|
                0 <= i2 < cur.len() && (#[trigger] cur[i2].branch_trace) is Some implies cur[i2].branch_trace->0
                < bs0.len() by {
                if i2 != index {
                    assert(cur[i2] == pre_cs[i2]);
                }
            }
            assert forall|i2: int| 0 <= i2 < cur.len() implies #[trigger] cur[i2] == with_trace(
                cs0[i2],
                cur[i2].branch_trace,
            ) by {
                if i2 != index {
                    assert(cur[i2] == pre_cs[i2]);
                } else {
                    assert(pre_cs[i2] == with_trace(cs0[i2], pre_cs[i2].branch_trace));
                }
            }
        }
        let par0 = commits[index].parent(0);
        proof {
            assert(commits@.map_values(|c: CommitInfo| c@)[index as int].parent0
                == pre_cs[index as int].parent0);
        }
        match par0 {
            None => {
                start_index = Some(index);
                start_neg = false;
                proof {
                    assert(spec_walk(
                        pre_cs,
                        pre_bs,
                        m,
                        branch_index as int,
                        curr_oid,
                        pre_prev,
                        pre_start,
                        pre_any,
                        fuel,
                    ) == (
                        commits@.map_values(|c: CommitInfo| c@),
                        branches@.map_values(|b: BranchInfo| b@),
                        Some(index as int),
                        true,
                    ));
                }
                break ;
            },
            Some(p) => {
                prev_index = Some(index);
                curr_oid = p;
                proof {
                    assert(pre_cs[index as int].parent(0) == Some(p));
                    if m.contains_key(p) {
                        assert(m[pre_cs[index as int].parent(0)->0] > index as int);
                    }
                    assert(spec_walk(
                        pre_cs,
                        pre_bs,
                        m,
                        branch_index as int,
                        curr_at_head,
                        pre_prev,
                        pre_start,
                        pre_any,
                        fuel,
                    ) == spec_walk(
                        commits@.map_values(|c: CommitInfo| c@),
                        branches@.map_values(|b: BranchInfo| b@),
                        m,
                        branch_index as int,
                        p,
                        Some(index as int),
                        pre_start,
                        true,
                        (fuel - 1) as nat,
                    ));
                    fuel = (fuel - 1) as nat;
                }
            },
        }
    }
    let ghost walked = spec_walk(cs0, bs0, m, branch_index as int, oid, None, None, false, fuel0);
    let end_opt = branches[branch_index].range.0;
    let newr: (Option<usize>, Option<usize>) = match end_opt {
        Some(end) => match start_index {
            Some(v) => if start_neg || v < end {
                (None, None)
            } else {
                (Some(end), Some(v))
            },
            None => (Some(end), None),
        },
        None => (
            None,
            match start_index {
                Some(v) => Some(
                    if start_neg {
                        0
                    } else {
                        v
                    },
                ),
                None => None,
            },
        ),
    };
    let ghost pre_bs = branches@.map_values(|b: BranchInfo| b@);
    proof {
        assert(pre_bs == walked.1);
        assert(end_opt == walked.1[branch_index as int].range.0);
        let si_spec: Option<int> = match start_index {
            Some(si) => if start_neg {
                Some(-1)
            } else {
                Some(si as int)
            },
            None => None,
        };
        assert(si_spec == walked.2);
    }
    set_branch_range(branches, branch_index, newr);
    proof {
        assert(branches@.map_values(|b: BranchInfo| b@) =~= pre_bs.update(
            branch_index as int,
            with_range(pre_bs[branch_index as int], newr),
        ));
        assert(branches@.map_values(|b: BranchInfo| b@) =~= spec_trace_fixup(
            walked.1,
            branch_index as int,
            walked.2,
        ));
        lemma_walk_no_reassign(cs0, bs0, m, branch_index as int, oid, None, None, false, fuel0);
        assert forall|i: int|
            0 <= i < old(commits)@.len() && (#[trigger] old(commits)@[i]@.branch_trace) is Some
            implies commits@[i]@.branch_trace == old(commits)@[i]@.branch_trace by {
            assert(cs0[i] == old(commits)@[i]@);
            assert(walked.0[i].branch_trace == cs0[i].branch_trace);
            assert(commits@.map_values(|c: CommitInfo| c@)[i] == walked.0[i]);
        }
    }
    any_assigned
}

/// How many commits of `cs` carry the trace `t`.
pub open spec fn spec_count_trace(cs: Seq<CommitView>, t: int) -> int
    decreases cs.len(),
{
    if cs.len() == 0 {
        0
    } else {
        spec_count_trace(cs.drop_last(), t) + if cs.last().branch_trace == Some(t as usize) {
            1int
        } else {
            0int
        }
    }
}

/// One branch of the catalog processed: its labels attached to its target
/// commit, the branch traced, and whether it stays a candidate (it claimed
/// a commit, or is a real branch).
pub open spec fn spec_assign_step(
    cs: Seq<CommitView>,
    bs: Seq<BranchView>,
    m: Map<u64, usize>,
    oi: int,
) -> (Seq<CommitView>, Seq<BranchView>, bool) {
    let b = bs[oi];
    if m.contains_key(b.target) {
        let idx = m[b.target] as int;
        let cs1 = if b.is_tag {
            cs.update(idx, CommitView { tags: cs[idx].tags.push(oi as usize), ..cs[idx] })
        } else if !b.is_merged {
            cs.update(idx, CommitView { branches: cs[idx].branches.push(oi as usize), ..cs[idx] })
        } else {
            cs
        };
        let traced = spec_trace_branch(cs1, bs, m, cs1[idx].oid, oi);
        (traced.0, traced.1, traced.2 || !b.is_merged)
    } else {
        (cs, bs, false)
    }
}

/// The tracing pass over the catalog from branch `i` on: the claimed
/// commits, the adjusted branches, and one keep-candidate flag per branch.
pub open spec fn spec_assign_from(
    cs: Seq<CommitView>,
    bs: Seq<BranchView>,
    m: Map<u64, usize>,
    i: int,
    n: int,
) -> (Seq<CommitView>, Seq<BranchView>, Seq<bool>)
    decreases n - i,
{
    if i < 0 || i >= n {
        (cs, bs, Seq::<bool>::empty())
    } else {
        let st = spec_assign_step(cs, bs, m, i);
        let rest = spec_assign_from(st.0, st.1, m, i + 1, n);
        (rest.0, rest.1, seq![st.2] + rest.2)
    }
}

/// Whether branch `t` survives: it was a candidate, and it is not a
/// merge-derived non-tag branch that claimed no commit.
pub open spec fn spec_kept(
    cs: Seq<CommitView>,
    bs: Seq<BranchView>,
    mapped: Seq<bool>,
    t: int,
) -> bool {
    &&& mapped[t]
    &&& !(spec_count_trace(cs, t) == 0 && bs[t].is_merged && !bs[t].is_tag)
}

/// The dense new id of branch `t`: how many surviving branches come before
/// it.
pub open spec fn spec_new_id(
    cs: Seq<CommitView>,
    bs: Seq<BranchView>,
    mapped: Seq<bool>,
    t: int,
) -> int
    decreases t,
{
    if t <= 0 {
        0
    } else {
        spec_new_id(cs, bs, mapped, t - 1) + if spec_kept(cs, bs, mapped, t - 1) {
            1int
        } else {
            0int
        }
    }
}

/// A label id translated to the dense numbering.  Real branches and tags
/// always survive, so a discarded label id never comes up; it falls back
/// to lane 0.
pub open spec fn spec_remap_label(
    cs: Seq<CommitView>,
    bs: Seq<BranchView>,
    mapped: Seq<bool>,
    l: usize,
) -> usize {
    if spec_kept(cs, bs, mapped, l as int) {
        spec_new_id(cs, bs, mapped, l as int) as usize
    } else {
        0
    }
}

/// One commit after the renumbering: a traced commit has its trace and its
/// label lists translated; an untraced commit is left alone.
pub open spec fn spec_remap_commit(
    cs: Seq<CommitView>,
    bs: Seq<BranchView>,
    mapped: Seq<bool>,
    c: CommitView,
) -> CommitView {
    match c.branch_trace {
        Some(t) => CommitView {
            branch_trace: if spec_kept(cs, bs, mapped, t as int) {
                Some(spec_new_id(cs, bs, mapped, t as int) as usize)
            } else {
                None
            },
            branches: c.branches.map_values(|l: usize| spec_remap_label(cs, bs, mapped, l)),
            tags: c.tags.map_values(|l: usize| spec_remap_label(cs, bs, mapped, l)),
            ..c
        },
        None => c,
    }
}

/// The surviving branches from position `i` on, in order.
pub open spec fn spec_filter_branches(
    cs: Seq<CommitView>,
    bs: Seq<BranchView>,
    mapped: Seq<bool>,
    i: int,
) -> Seq<BranchView>
    decreases bs.len() - i,
{
    if i < 0 || i >= bs.len() {
        Seq::<BranchView>::empty()
    } else {
        (if spec_kept(cs, bs, mapped, i) {
            seq![bs[i]]
        } else {
            Seq::<BranchView>::empty()
        }) + spec_filter_branches(cs, bs, mapped, i + 1)
    }
}

/// The whole branch assignment on an already-extracted catalog: tracing,
/// discarding of unused derived branches, and dense renumbering of traces,
/// labels and branches.
pub open spec fn spec_assign_branches(
    cs: Seq<CommitView>,
    bs: Seq<BranchView>,
    m: Map<u64, usize>,
) -> (Seq<CommitView>, Seq<BranchView>) {
    let traced = spec_assign_from(cs, bs, m, 0, bs.len() as int);
    let cs1 = traced.0;
    let bs1 = traced.1;
    let mapped = traced.2;
    (
        cs1.map_values(|c: CommitView| spec_remap_commit(cs1, bs1, mapped, c)),
        spec_filter_branches(cs1, bs1, mapped, 0),
    )
}

/// Parent pointers of `a` and `b` agree position by position.
pub open spec fn parents_match(a: Seq<CommitView>, b: Seq<CommitView>) -> bool {
    &&& a.len() == b.len()
    &&& forall|i: int|
        0 <= i < a.len() ==> (#[trigger] a[i]).parent0 == b[i].parent0 && a[i].parent1
            == b[i].parent1
}

/// Every label stored on a commit points below `n`.
pub open spec fn labels_bounded(cs: Seq<CommitView>, n: int) -> bool {
    forall|i: int|
        0 <= i < cs.len() ==> (forall|k: int|
            0 <= k < (#[trigger] cs[i]).branches.len() ==> (#[trigger] cs[i].branches[k]) < n)
            && (forall|k: int| 0 <= k < cs[i].tags.len() ==> (#[trigger] cs[i].tags[k]) < n)
}

/// Commits fresh from the walker: no trace and no labels yet.
pub open spec fn commits_fresh(cs: Seq<CommitView>) -> bool {
    forall|i: int|
        0 <= i < cs.len() ==> (#[trigger] cs[i]).branch_trace is None && cs[i].branches.len() == 0
            && cs[i].tags.len() == 0
}

/// Like [lemma_topo_preserved], for any state with the same parent
/// pointers.
pub proof fn lemma_topo_parents(a: Seq<CommitView>, b: Seq<CommitView>, m: Map<u64, usize>)
    requires
        parents_match(a, b),
        parents_topological(b, m),
    ensures
        parents_topological(a, m),
{
    assert forall|i: int, p: int|
        0 <= i < a.len() && 0 <= p < 2 && (#[trigger] a[i].parent(p)) is Some && m.contains_key(
            a[i].parent(p)->0,
        ) implies m[a[i].parent(p)->0] > i by {
        assert(a[i].parent(p) == b[i].parent(p));
    }
}

/// Extracts branches from the catalog, assigns branch labels and traces to
/// the commits, discards merge-derived branches that claimed nothing, and
/// renumbers the survivors densely.
#[verifier::loop_isolation(true)]
#[verifier::rlimit(60)]
pub fn assign_branches(
    refs: &Vec<RefData>,
    commit_data: &Vec<CommitData>,
    tags: &Vec<TagData>,
    commits: &mut Vec<CommitInfo>,
    indices: &HashMap<u64, usize>,
    settings: &Settings,
) -> (r: Result<Vec<BranchInfo>, String>)
    requires
        catalog_wf(settings.branches),
        refs@.len() + commit_data@.len() + tags@.len() <= usize::MAX,
        indices_bounded(indices@, old(commits)@.len() as int),
        parents_topological(old(commits)@.map_values(|c: CommitInfo| c@), indices@),
        commits_fresh(old(commits)@.map_values(|c: CommitInfo| c@)),
    ensures
        ({
            let cat = spec_catalog(
                refs@.map_values(|x: RefData| x@),
                commit_data@.map_values(|x: CommitData| x@),
                tags@.map_values(|x: TagData| x@),
                indices@,
                settings.branches,
                settings.include_remote,
                settings.merge_patterns.patterns@.map_values(|p: String| p@),
            );
            match r {
                Ok(v) => cat is Ok && ({
                    let assigned = spec_assign_branches(
                        old(commits)@.map_values(|c: CommitInfo| c@),
                        cat->Ok_0,
                        indices@,
                    );
                    &&& final(commits)@.map_values(|c: CommitInfo| c@) == assigned.0
                    &&& v@.map_values(|b: BranchInfo| b@) == assigned.1
                }),
                Err(e) => cat == Err::<Seq<BranchView>, _>(e@),
            }
        }),
        final(commits)@.len() == old(commits)@.len(),
{
    let ghost cs0 = old(commits)@.map_values(|c: CommitInfo| c@);
    let ghost m = indices@;
    let n = commits.len();
    let mut branches = match extract_branches(refs, commit_data, tags, indices, settings) {
        Ok(v) => v,
        Err(e) => {
            return Err(e);
        },
    };
    let ghost bs_cat = branches@.map_values(|b: BranchInfo| b@);
    let ncat = branches.len();
    let mut mapped: Vec<bool> = Vec::new();
    let mut oi: usize = 0;
    while oi < ncat
        invariant
            oi <= ncat,
            m == indices@,
            n == cs0.len(),
            commits@.len() == n,
            branches@.len() == ncat,
            ncat == bs_cat.len(),
            mapped@.len() == oi,
            indices_bounded(m, n as int),
            parents_topological(cs0, m),
            parents_match(commits@.map_values(|c: CommitInfo| c@), cs0),
            traces_bounded(commits@.map_values(|c: CommitInfo| c@), ncat as int),
            labels_bounded(commits@.map_values(|c: CommitInfo| c@), ncat as int),
            spec_assign_from(cs0, bs_cat, m, 0, ncat as int) == ({
                let rest = spec_assign_from(
                    commits@.map_values(|c: CommitInfo| c@),
                    branches@.map_values(|b: BranchInfo| b@),
                    m,
                    oi as int,
                    ncat as int,
                );
                (rest.0, rest.1, mapped@ + rest.2)
            }),
        decreases ncat - oi,
    {
        let ghost pre_cs = commits@.map_values(|c: CommitInfo| c@);
        let ghost pre_bs = branches@.map_values(|b: BranchInfo| b@);
        let target = branches[oi].target;
        let is_tag = branches[oi].is_tag;
        let is_merged = branches[oi].is_merged;
        let step_mapped: bool;
        match indices.get(&target) {
            Some(idx_ref) => {
                let idx = *idx_ref;
                if is_tag {
                    push_commit_tag_label(commits, idx, oi);
                } else if !is_merged {
                    push_commit_branch_label(commits, idx, oi);
                }
                let ghost cs1 = commits@.map_values(|c: CommitInfo| c@);
                proof {
                    let sb = pre_bs[oi as int];
                    if sb.is_tag {
                        assert(cs1 =~= pre_cs.update(
                            idx as int,
                            CommitView {
                                tags: pre_cs[idx as int].tags.push(oi),
                                ..pre_cs[idx as int]
                            },
                        ));
                    } else if !sb.is_merged {
                        assert(cs1 =~= pre_cs.update(
                            idx as int,
                            CommitView {
                                branches: pre_cs[idx as int].branches.push(oi),
                                ..pre_cs[idx as int]
                            },
                        ));
                    }
                    assert(parents_match(cs1, cs0));
                    assert(traces_bounded(cs1, ncat as int));
                    assert forall|i2: int| 0 <= i2 < cs1.len() implies (forall|k: int|
                        0 <= k < (#[trigger] cs1[i2]).branches.len() ==> (#[trigger] cs1[i2].branches[k])
                            < ncat as int) && (forall|k: int|
                        0 <= k < cs1[i2].tags.len() ==> (#[trigger] cs1[i2].tags[k])
                            < ncat as int) by {
                        if i2 != idx {
                            assert(cs1[i2] == pre_cs[i2]);
                        }
                    }
                    lemma_topo_parents(cs1, cs0, m);
                }
                let oid = commits[idx].oid;
                let any = trace_branch(commits, indices, &mut branches, oid, oi);
                step_mapped = any || !is_merged;
                proof {
                    let traced = spec_trace_branch(cs1, pre_bs, m, cs1[idx as int].oid, oi as int);
                    assert(oid == cs1[idx as int].oid);
                    assert(commits@.map_values(|c: CommitInfo| c@) == traced.0);
                    assert(branches@.map_values(|b: BranchInfo| b@) == traced.1);
                    assert(spec_assign_step(pre_cs, pre_bs, m, oi as int) == (
                        traced.0,
                        traced.1,
                        step_mapped,
                    ));
                    assert(labels_bounded(commits@.map_values(|c: CommitInfo| c@), ncat as int))
                        by {
                        let cur = commits@.map_values(|c: CommitInfo| c@);
                        assert forall|i2: int| 0 <= i2 < cur.len() implies (forall|k: int|
                            0 <= k < (#[trigger] cur[i2]).branches.len() ==> (#[trigger] cur[i2].branches[k])
                                < ncat as int) && (forall|k: int|
                            0 <= k < cur[i2].tags.len() ==> (#[trigger] cur[i2].tags[k])
                                < ncat as int) by {
                            assert(cur[i2] == with_trace(cs1[i2], cur[i2].branch_trace));
                        }
                    }
                }
            },
            None => {
                step_mapped = false;
                proof {
                    assert(spec_assign_step(pre_cs, pre_bs, m, oi as int) == (
                        pre_cs,
                        pre_bs,
                        false,
                    ));
                }
            },
        }
        mapped.push(step_mapped);
        proof {
            let cur_cs = commits@.map_values(|c: CommitInfo| c@);
            let cur_bs = branches@.map_values(|b: BranchInfo| b@);
            let rest_new = spec_assign_from(cur_cs, cur_bs, m, oi as int + 1, ncat as int);
            assert(spec_assign_from(pre_cs, pre_bs, m, oi as int, ncat as int) == (
                rest_new.0,
                rest_new.1,
                seq![step_mapped] + rest_new.2,
            ));
            assert(mapped@ =~= mapped@.drop_last().push(step_mapped));
            assert(mapped@.drop_last() + (seq![step_mapped] + rest_new.2) =~= mapped@
                + rest_new.2);
        }
        oi += 1;
    }
    let ghost asg = spec_assign_from(cs0, bs_cat, m, 0, ncat as int);
    let ghost cs1 = commits@.map_values(|c: CommitInfo| c@);
    let ghost bs1 = branches@.map_values(|b: BranchInfo| b@);
    proof {
        assert(spec_assign_from(cs1, bs1, m, ncat as int, ncat as int) == (
            cs1,
            bs1,
            Seq::<bool>::empty(),
        ));
        assert(mapped@ + Seq::<bool>::empty() =~= mapped@);
        assert(asg == (cs1, bs1, mapped@));
    }
    // count the commits every branch claimed
    let mut commit_count: Vec<usize> = Vec::new();
    let mut t: usize = 0;
    while t < ncat
        invariant
            t <= ncat,
            commit_count@.len() == t,
            forall|j: int| 0 <= j < t ==> #[trigger] commit_count@[j] == 0,
        decreases ncat - t,
    {
        commit_count.push(0);
        t += 1;
    }
    let mut i: usize = 0;
    while i < n
        invariant
            i <= n,
            n == cs1.len(),
            commits@.len() == n,
            cs1 == commits@.map_values(|c: CommitInfo| c@),
            traces_bounded(cs1, ncat as int),
            commit_count@.len() == ncat,
            forall|j: int| 0 <= j < ncat ==> #[trigger] commit_count@[j] as int == spec_count_trace(cs1.take(i as int), j),
            forall|j: int| 0 <= j < ncat ==> #[trigger] commit_count@[j] <= i,
        decreases n - i,
    {
        let ghost pre_count = commit_count@;
        if let Some(tr) = commits[i].branch_trace {
            let c = commit_count[tr];
            commit_count[tr] = c + 1;
        }
        proof {
            assert(cs1.take(i as int + 1).drop_last() =~= cs1.take(i as int));
            assert(cs1.take(i as int + 1).last() == cs1[i as int]);
            assert(commits@[i as int]@ == cs1[i as int]);
            assert forall|j: int| 0 <= j < ncat implies #[trigger] commit_count@[j] as int
                == spec_count_trace(cs1.take(i as int + 1), j) by {
                if cs1[i as int].branch_trace != Some(j as usize) {
                    assert(commit_count@[j] == pre_count[j]);
                }
            }
        }
        i += 1;
    }
    proof {
        assert(cs1.take(n as int) =~= cs1);
    }
    // translation table from old to new branch ids
    let mut index_map: Vec<Option<usize>> = Vec::new();
    let mut kept_count: usize = 0;
    let mut t: usize = 0;
    while t < ncat
        invariant
            t <= ncat,
            ncat == bs1.len(),
            ncat == mapped@.len(),
            branches@.len() == ncat,
            bs1 == branches@.map_values(|b: BranchInfo| b@),
            commit_count@.len() == ncat,
            forall|j: int| 0 <= j < ncat ==> #[trigger] commit_count@[j] as int == spec_count_trace(cs1, j),
            index_map@.len() == t,
            kept_count as int == spec_new_id(cs1, bs1, mapped@, t as int),
            kept_count <= t,
            forall|j: int|
                0 <= j < t ==> #[trigger] index_map@[j] == (if spec_kept(cs1, bs1, mapped@, j) {
                    Some(spec_new_id(cs1, bs1, mapped@, j) as usize)
                } else {
                    None::<usize>
                }),
        decreases ncat - t,
    {
        let cc = commit_count[t];
        let keep = mapped[t] && !(cc == 0 && branches[t].is_merged && !branches[t].is_tag);
        proof {
            assert(keep == spec_kept(cs1, bs1, mapped@, t as int));
        }
        if keep {
            index_map.push(Some(kept_count));
            kept_count += 1;
        } else {
            index_map.push(None);
        }
        t += 1;
    }
    // renumber traces and labels
    let ghost remapped = cs1.map_values(|c: CommitView| spec_remap_commit(cs1, bs1, mapped@, c));
    let mut i: usize = 0;
    while i < n
        invariant
            i <= n,
            commits@.len() == n,
            n == cs1.len(),
            ncat == bs1.len(),
            ncat == mapped@.len(),
            index_map@.len() == ncat,
            traces_bounded(cs1, ncat as int),
            labels_bounded(cs1, ncat as int),
            forall|j: int|
                0 <= j < ncat ==> #[trigger] index_map@[j] == (if spec_kept(cs1, bs1, mapped@, j) {
                    Some(spec_new_id(cs1, bs1, mapped@, j) as usize)
                } else {
                    None::<usize>
                }),
            remapped == cs1.map_values(|c: CommitView| spec_remap_commit(cs1, bs1, mapped@, c)),
            forall|j: int| i <= j < n ==> #[trigger] commits@[j]@ == cs1[j],
            forall|j: int| 0 <= j < i ==> #[trigger] commits@[j]@ == remapped[j],
        decreases n - i,
    {
        let ghost pre = commits@;
        let mut info = commits.remove(i);
        proof {
            assert(info@ == cs1[i as int]);
        }
        if let Some(tr) = info.branch_trace {
            info.branch_trace = index_map[tr];
            let nb = remap_labels(&info.branches, &index_map);
            let nt = remap_labels(&info.tags, &index_map);
            proof {
                assert(nb@ =~= cs1[i as int].branches.map_values(
                    |l: usize| spec_remap_label(cs1, bs1, mapped@, l),
                ));
                assert(nt@ =~= cs1[i as int].tags.map_values(
                    |l: usize| spec_remap_label(cs1, bs1, mapped@, l),
                ));
            }
            info.branches = nb;
            info.tags = nt;
        }
        commits.insert(i, info);
        proof {
            assert(commits@ =~= pre.update(i as int, commits@[i as int]));
            assert(commits@[i as int]@ =~= spec_remap_commit(cs1, bs1, mapped@, cs1[i as int]));
        }
        i += 1;
    }
    proof {
        assert(commits@.map_values(|c: CommitInfo| c@) =~= remapped);
    }
    // keep only surviving branches, in order
    let mut out: Vec<BranchInfo> = Vec::new();
    let mut rest = branches;
    let mut t: usize = 0;
    while t < ncat
        invariant
            t <= ncat,
            ncat == bs1.len(),
            ncat == mapped@.len(),
            index_map@.len() == ncat,
            rest@.len() == ncat - t,
            rest@.map_values(|b: BranchInfo| b@) =~= bs1.skip(t as int),
            forall|j: int|
                0 <= j < ncat ==> #[trigger] index_map@[j] == (if spec_kept(cs1, bs1, mapped@, j) {
                    Some(spec_new_id(cs1, bs1, mapped@, j) as usize)
                } else {
                    None::<usize>
                }),
            out@.map_values(|b: BranchInfo| b@) + spec_filter_branches(cs1, bs1, mapped@, t as int)
                =~= spec_filter_branches(cs1, bs1, mapped@, 0),
        decreases ncat - t,
    {
        let ghost pre_rest = rest@;
        let b = rest.remove(0);
        proof {
            assert(pre_rest.map_values(|x: BranchInfo| x@)[0] == bs1.skip(t as int)[0]);
            assert(b@ == bs1[t as int]);
            assert forall|k: int| 0 <= k < rest@.len() implies (#[trigger] rest@[k])@ == bs1.skip(
                t as int + 1,
            )[k] by {
                assert(rest@[k] == pre_rest[k + 1]);
                assert(pre_rest.map_values(|x: BranchInfo| x@)[k + 1] == bs1.skip(t as int)[k + 1]);
            }
            assert(rest@.map_values(|x: BranchInfo| x@) =~= bs1.skip(t as int + 1));
        }
        let keep = index_map[t].is_some();
        let ghost pre_out = out@.map_values(|x: BranchInfo| x@);
        if keep {
            out.push(b);
            proof {
                assert(out@.map_values(|x: BranchInfo| x@) =~= pre_out.push(bs1[t as int]));
            }
        }
        proof {
            assert(spec_filter_branches(cs1, bs1, mapped@, t as int) == (if spec_kept(
                cs1,
                bs1,
                mapped@,
                t as int,
            ) {
                seq![bs1[t as int]]
            } else {
                Seq::<BranchView>::empty()
            }) + spec_filter_branches(cs1, bs1, mapped@, t as int + 1));
            if spec_kept(cs1, bs1, mapped@, t as int) {
                assert(pre_out.push(bs1[t as int]) + spec_filter_branches(
                    cs1,
                    bs1,
                    mapped@,
                    t as int + 1,
                ) =~= pre_out + (seq![bs1[t as int]] + spec_filter_branches(
                    cs1,
                    bs1,
                    mapped@,
                    t as int + 1,
                )));
            } else {
                assert(pre_out + spec_filter_branches(cs1, bs1, mapped@, t as int + 1) =~= pre_out
                    + (Seq::<BranchView>::empty() + spec_filter_branches(
                    cs1,
                    bs1,
                    mapped@,
                    t as int + 1,
                )));
            }
        }
        t += 1;
    }
    proof {
        assert(spec_filter_branches(cs1, bs1, mapped@, ncat as int) =~= Seq::<BranchView>::empty());
        assert(out@.map_values(|b: BranchInfo| b@) + Seq::<BranchView>::empty() =~= out@.map_values(
            |b: BranchInfo| b@,
        ));
    }
    Ok(out)
}

/// Translates a label list through the old-to-new id table.
fn remap_labels(labels: &Vec<usize>, index_map: &Vec<Option<usize>>) -> (r: Vec<usize>)
    requires
        forall|k: int| 0 <= k < labels@.len() ==> #[trigger] labels@[k] < index_map@.len(),
    ensures
        r@ == labels@.map_values(
            |l: usize| match index_map@[l as int] {
                Some(v) => v,
                None => 0usize,
            },
        ),
{
    let mut r: Vec<usize> = Vec::new();
    let nl = labels.len();
    let mut k: usize = 0;
    while k < nl
        invariant
            k <= nl,
            nl == labels@.len(),
            forall|j: int| 0 <= j < nl ==> #[trigger] labels@[j] < index_map@.len(),
            r@ =~= labels@.take(k as int).map_values(
                |l: usize| match index_map@[l as int] {
                    Some(v) => v,
                    None => 0usize,
                },
            ),
        decreases nl - k,
    {
        let l = labels[k];
        let v = match index_map[l] {
            Some(v) => v,
            None => 0,
        };
        r.push(v);
        proof {
            assert(labels@.take(k as int + 1).drop_last() =~= labels@.take(k as int));
            assert(labels@.take(k as int + 1).last() == labels@[k as int]);
            assert(r@ =~= labels@.take(k as int + 1).map_values(
                |l: usize| match index_map@[l as int] {
                    Some(v) => v,
                    None => 0usize,
                },
            ));
        }
        k += 1;
    }
    proof {
        assert(labels@.take(nl as int) =~= labels@);
    }
    r
}

/// The walk changes no branch's column and no list's length.
pub proof fn lemma_walk_preserves(
    cs: Seq<CommitView>,
    bs: Seq<BranchView>,
    m: Map<u64, usize>,
    bidx: int,
    curr: u64,
    prev: Option<int>,
    start: Option<int>,
    any: bool,
    fuel: nat,
)
    requires
        traces_bounded(cs, bs.len() as int),
        indices_bounded(m, cs.len() as int),
        0 <= bidx < bs.len(),
    ensures
        ({
            let r = spec_walk(cs, bs, m, bidx, curr, prev, start, any, fuel);
            &&& r.0.len() == cs.len()
            &&& r.1.len() == bs.len()
            &&& traces_bounded(r.0, bs.len() as int)
            &&& forall|j: int|
                0 <= j < bs.len() ==> (#[trigger] r.1[j]).visual.column == bs[j].visual.column
        }),
    decreases fuel,
{
    if fuel != 0 && m.contains_key(curr) {
        let index = m[curr] as int;
        let info = cs[index];
        match info.branch_trace {
            Some(old_trace) => {
                let old_b = bs[old_trace as int];
                let old_end: int = match old_b.range.0 {
                    Some(e) => e as int,
                    None => 0,
                };
                let new_end: int = match bs[bidx].range.0 {
                    Some(e) => e as int,
                    None => 0,
                };
                if old_b.name == bs[bidx].name && old_end >= new_end {
                    let range1 = match old_b.range.1 {
                        Some(oe) => if index > oe {
                            (None, None)
                        } else {
                            (Some(index as usize), old_b.range.1)
                        },
                        None => (Some(index as usize), old_b.range.1),
                    };
                    let bs1 = bs.update(old_trace as int, with_range(old_b, range1));
                    assert forall|j: int|
                        0 <= j < bs.len() implies (#[trigger] bs1[j]).visual.column
                        == bs[j].visual.column by {
                        if j == old_trace as int {
                            assert(bs1[j] == with_range(old_b, range1));
                        } else {
                            assert(bs1[j] == bs[j]);
                        }
                    }
                } else {
                    let bs1 = if spec_starts_with(bs[bidx].name, "origin/"@) && bs[bidx].name.skip(
                        "origin/"@.len() as int,
                    ) == old_b.name {
                        bs.update(
                            bidx,
                            with_colors(bs[bidx], old_b.visual.term_color, old_b.visual.svg_color),
                        )
                    } else {
                        bs
                    };
                    assert forall|j: int|
                        0 <= j < bs.len() implies (#[trigger] bs1[j]).visual.column
                        == bs[j].visual.column by {
                        if j != bidx {
                            assert(bs1[j] == bs[j]);
                        }
                    }
                }
            },
            None => {
                let cs1 = cs.update(index, with_trace(info, Some(bidx as usize)));
                assert(traces_bounded(cs1, bs.len() as int)) by {
                    assert forall|q: int|
                        0 <= q < cs1.len() && (#[trigger] cs1[q].branch_trace) is Some implies cs1[q].branch_trace->0
                        < bs.len() by {
                        if q != index {
                            assert(cs1[q] == cs[q]);
                        }
                    }
                }
                if !(info.parent0 is None) {
                    lemma_walk_preserves(
                        cs1,
                        bs,
                        m,
                        bidx,
                        info.parent0->0,
                        Some(index),
                        start,
                        true,
                        (fuel - 1) as nat,
                    );
                }
            },
        }
    }
}

/// The whole tracing pass changes no branch's column and keeps the lengths.
pub proof fn lemma_assign_from_preserves(
    cs: Seq<CommitView>,
    bs: Seq<BranchView>,
    m: Map<u64, usize>,
    i: int,
    n: int,
)
    requires
        n == bs.len(),
        0 <= i,
        traces_bounded(cs, bs.len() as int),
        indices_bounded(m, cs.len() as int),
    ensures
        ({
            let r = spec_assign_from(cs, bs, m, i, n);
            &&& r.0.len() == cs.len()
            &&& r.1.len() == bs.len()
            &&& traces_bounded(r.0, bs.len() as int)
            &&& forall|j: int|
                0 <= j < bs.len() ==> (#[trigger] r.1[j]).visual.column == bs[j].visual.column
        }),
    decreases n - i,
{
    if i < n {
        let st = spec_assign_step(cs, bs, m, i);
        let b = bs[i];
        if m.contains_key(b.target) {
            let idx = m[b.target] as int;
            let cs1 = if b.is_tag {
                cs.update(idx, CommitView { tags: cs[idx].tags.push(i as usize), ..cs[idx] })
            } else if !b.is_merged {
                cs.update(
                    idx,
                    CommitView { branches: cs[idx].branches.push(i as usize), ..cs[idx] },
                )
            } else {
                cs
            };
            assert(traces_bounded(cs1, bs.len() as int)) by {
                assert forall|q: int|
                    0 <= q < cs1.len() && (#[trigger] cs1[q].branch_trace) is Some implies cs1[q].branch_trace->0
                    < bs.len() by {
                    if q != idx {
                        assert(cs1[q] == cs[q]);
                    } else {
                        assert(cs1[q].branch_trace == cs[q].branch_trace);
                    }
                }
            }
            lemma_walk_preserves(
                cs1,
                bs,
                m,
                i,
                cs1[idx].oid,
                None,
                None,
                false,
                (cs1.len() + 1) as nat,
            );
        }
        lemma_assign_from_preserves(st.0, st.1, m, i + 1, n);
        let r = spec_assign_from(cs, bs, m, i, n);
        assert forall|j: int| 0 <= j < bs.len() implies (#[trigger] r.1[j]).visual.column
            == bs[j].visual.column by {
            assert(st.1[j].visual.column == bs[j].visual.column);
        }
    }
}

/// Filtering keeps every surviving branch's column as it was.
pub proof fn lemma_filter_branches_columns(
    cs: Seq<CommitView>,
    bs: Seq<BranchView>,
    mapped: Seq<bool>,
    i: int,
)
    requires
        forall|j: int| 0 <= j < bs.len() ==> (#[trigger] bs[j]).visual.column is None,
    ensures
        forall|k: int|
            0 <= k < spec_filter_branches(cs, bs, mapped, i).len() ==> (
            #[trigger] spec_filter_branches(cs, bs, mapped, i)[k]).visual.column is None,
    decreases bs.len() - i,
{
    if 0 <= i < bs.len() {
        lemma_filter_branches_columns(cs, bs, mapped, i + 1);
        assert forall|k: int|
            0 <= k < spec_filter_branches(cs, bs, mapped, i).len() implies (
        #[trigger] spec_filter_branches(cs, bs, mapped, i)[k]).visual.column is None by {
            let hd = if spec_kept(cs, bs, mapped, i) {
                seq![bs[i]]
            } else {
                Seq::<BranchView>::empty()
            };
            if k >= hd.len() {
                assert(spec_filter_branches(cs, bs, mapped, i)[k] == spec_filter_branches(
                    cs,
                    bs,
                    mapped,
                    i + 1,
                )[k - hd.len()]);
            }
        }
    }
}

/// Root termination: tracing a branch whose tip is an unclaimed root
/// commit (no parents) terminates after claiming exactly that commit, and
/// the branch's active range closes at that commit's index.
pub proof fn lemma_root_termination(
    cs: Seq<CommitView>,
    bs: Seq<BranchView>,
    m: Map<u64, usize>,
    oid: u64,
    bidx: int,
)
    requires
        m.contains_key(oid),
        m[oid] < cs.len(),
        cs[m[oid] as int].branch_trace is None,
        cs[m[oid] as int].parent0 is None,
        0 <= bidx < bs.len(),
        bs[bidx].range.0 == Some(m[oid]),
    ensures
        ({
            let r = spec_trace_branch(cs, bs, m, oid, bidx);
            let idx = m[oid] as int;
            &&& r.0 == cs.update(idx, with_trace(cs[idx], Some(bidx as usize)))
            &&& r.2 == true
            &&& r.1 == bs.update(bidx, with_range(bs[bidx], (Some(m[oid]), Some(m[oid]))))
            &&& r.1[bidx].range == (Some(m[oid]), Some(m[oid]))
        }),
{
    let idx = m[oid] as int;
    let fuel = (cs.len() + 1) as nat;
    let walked = spec_walk(cs, bs, m, bidx, oid, None, None, false, fuel);
    assert(walked == (
        cs.update(idx, with_trace(cs[idx], Some(bidx as usize))),
        bs,
        Some(idx),
        true,
    ));
    assert(spec_trace_fixup(bs, bidx, Some(idx)) == bs.update(
        bidx,
        with_range(bs[bidx], (Some(m[oid]), Some(m[oid]))),
    ));
    assert(spec_trace_branch(cs, bs, m, oid, bidx).1[bidx].range == (Some(m[oid]), Some(m[oid])));
}

/// Every closed active range is ordered: its start does not lie past its
/// end.
pub open spec fn ranges_ordered(bs: Seq<BranchView>) -> bool {
    forall|q: int|
        0 <= q < bs.len() && (#[trigger] bs[q]).range.0 is Some && bs[q].range.1 is Some
            ==> bs[q].range.0->0 <= bs[q].range.1->0
}

proof fn lemma_walk_ranges_ordered(
    cs: Seq<CommitView>,
    bs: Seq<BranchView>,
    m: Map<u64, usize>,
    bidx: int,
    curr: u64,
    prev: Option<int>,
    start: Option<int>,
    any: bool,
    fuel: nat,
)
    requires
        ranges_ordered(bs),
        traces_bounded(cs, bs.len() as int),
        indices_bounded(m, cs.len() as int),
        0 <= bidx < bs.len(),
    ensures
        ranges_ordered(spec_walk(cs, bs, m, bidx, curr, prev, start, any, fuel).1),
    decreases fuel,
{
    if fuel != 0 && m.contains_key(curr) {
        let index = m[curr] as int;
        let info = cs[index];
        match info.branch_trace {
            Some(old_trace) => {
                let old_b = bs[old_trace as int];
                let old_end: int = match old_b.range.0 {
                    Some(e) => e as int,
                    None => 0,
                };
                let new_end: int = match bs[bidx].range.0 {
                    Some(e) => e as int,
                    None => 0,
                };
                if old_b.name == bs[bidx].name && old_end >= new_end {
                    let range1 = match old_b.range.1 {
                        Some(oe) => if index > oe {
                            (None, None)
                        } else {
                            (Some(index as usize), old_b.range.1)
                        },
                        None => (Some(index as usize), old_b.range.1),
                    };
                    let bs1 = bs.update(old_trace as int, with_range(old_b, range1));
                    assert(old_trace < bs.len());
                    assert forall|q: int|
                        0 <= q < bs1.len() && (#[trigger] bs1[q]).range.0 is Some && bs1[q].range.1
                            is Some implies bs1[q].range.0->0 <= bs1[q].range.1->0 by {
                        if q == old_trace as int {
                            assert(bs1[q] == with_range(old_b, range1));
                        } else {
                            assert(bs1[q] == bs[q]);
                        }
                    }
                } else {
                    let bs1 = if spec_starts_with(bs[bidx].name, "origin/"@) && bs[bidx].name.skip(
                        "origin/"@.len() as int,
                    ) == old_b.name {
                        bs.update(
                            bidx,
                            with_colors(bs[bidx], old_b.visual.term_color, old_b.visual.svg_color),
                        )
                    } else {
                        bs
                    };
                    assert forall|q: int|
                        0 <= q < bs1.len() && (#[trigger] bs1[q]).range.0 is Some && bs1[q].range.1
                            is Some implies bs1[q].range.0->0 <= bs1[q].range.1->0 by {
                        if q == bidx {
                            assert(bs1[q].range == bs[q].range);
                        } else {
                            assert(bs1[q] == bs[q]);
                        }
                    }
                }
            },
            None => {
                let cs1 = cs.update(index, with_trace(info, Some(bidx as usize)));
                assert(traces_bounded(cs1, bs.len() as int)) by {
                    assert forall|q2: int|
                        0 <= q2 < cs1.len() && (#[trigger] cs1[q2].branch_trace) is Some implies cs1[q2].branch_trace->0
                        < bs.len() by {
                        if q2 != index {
                            assert(cs1[q2] == cs[q2]);
                        }
                    }
                }
                if !(info.parent0 is None) {
                    lemma_walk_ranges_ordered(
                        cs1,
                        bs,
                        m,
                        bidx,
                        info.parent0->0,
                        Some(index),
                        start,
                        true,
                        (fuel - 1) as nat,
                    );
                }
            },
        }
    }
}


proof fn lemma_sibling_max_bounded(
    children: Seq<u64>,
    m: Map<u64, usize>,
    curr: u64,
    init: int,
    n: int,
)
    requires
        -1 <= init < n,
        indices_bounded(m, n),
    ensures
        -1 <= spec_sibling_max(children, m, curr, init) < n,
    decreases children.len(),
{
    if children.len() > 0 {
        lemma_sibling_max_bounded(children.drop_last(), m, curr, init, n);
    }
}

proof fn lemma_walk_start_bounded(
    cs: Seq<CommitView>,
    bs: Seq<BranchView>,
    m: Map<u64, usize>,
    bidx: int,
    curr: u64,
    prev: Option<int>,
    start: Option<int>,
    any: bool,
    fuel: nat,
)
    requires
        indices_bounded(m, cs.len() as int),
        prev matches Some(pi) ==> 0 <= pi < cs.len(),
        start matches Some(si) ==> -1 <= si < cs.len(),
    ensures
        ({
            let r = spec_walk(cs, bs, m, bidx, curr, prev, start, any, fuel);
            r.2 matches Some(si) ==> -1 <= si < cs.len()
        }),
    decreases fuel,
{
    if fuel != 0 && m.contains_key(curr) {
        let index = m[curr] as int;
        let info = cs[index];
        match info.branch_trace {
            Some(old_trace) => {
                let old_b = bs[old_trace as int];
                let old_end: int = match old_b.range.0 {
                    Some(e) => e as int,
                    None => 0,
                };
                let new_end: int = match bs[bidx].range.0 {
                    Some(e) => e as int,
                    None => 0,
                };
                if old_b.name == bs[bidx].name && old_end >= new_end {
                    // the walk ends here and hands the start index through
                } else {
                    match prev {
                        Some(pi) => {
                            if cs[pi].is_merge {
                                lemma_sibling_max_bounded(
                                    info.children,
                                    m,
                                    curr,
                                    pi,
                                    cs.len() as int,
                                );
                            }
                        },
                        None => {},
                    }
                }
            },
            None => {
                let cs1 = cs.update(index, with_trace(info, Some(bidx as usize)));
                if !(info.parent0 is None) {
                    lemma_walk_start_bounded(
                        cs1,
                        bs,
                        m,
                        bidx,
                        info.parent0->0,
                        Some(index),
                        start,
                        true,
                        (fuel - 1) as nat,
                    );
                }
            },
        }
    }
}

proof fn lemma_trace_ranges_ordered(
    cs: Seq<CommitView>,
    bs: Seq<BranchView>,
    m: Map<u64, usize>,
    oid: u64,
    bidx: int,
)
    requires
        cs.len() <= usize::MAX,
        ranges_ordered(bs),
        traces_bounded(cs, bs.len() as int),
        indices_bounded(m, cs.len() as int),
        0 <= bidx < bs.len(),
    ensures
        ranges_ordered(spec_trace_branch(cs, bs, m, oid, bidx).1),
{
    lemma_walk_ranges_ordered(cs, bs, m, bidx, oid, None, None, false, (cs.len() + 1) as nat);
    let walked = spec_walk(cs, bs, m, bidx, oid, None, None, false, (cs.len() + 1) as nat);
    let bs1 = walked.1;
    let fixed = spec_trace_fixup(bs1, bidx, walked.2);
    lemma_walk_preserves(cs, bs, m, bidx, oid, None, None, false, (cs.len() + 1) as nat);
    lemma_walk_start_bounded(cs, bs, m, bidx, oid, None, None, false, (cs.len() + 1) as nat);
    assert forall|q: int|
        0 <= q < fixed.len() && (#[trigger] fixed[q]).range.0 is Some && fixed[q].range.1 is Some
            implies fixed[q].range.0->0 <= fixed[q].range.1->0 by {
        if q == bidx {
            match walked.2 {
                Some(si) => {
                    assert(-1 <= si < cs.len());
                },
                None => {},
            }
        } else {
            assert(fixed[q] == bs1[q]);
        }
    }
}

proof fn lemma_assign_ranges_ordered(
    cs: Seq<CommitView>,
    bs: Seq<BranchView>,
    m: Map<u64, usize>,
    i: int,
    n: int,
)
    requires
        cs.len() <= usize::MAX,
        ranges_ordered(bs),
        traces_bounded(cs, bs.len() as int),
        indices_bounded(m, cs.len() as int),
        n == bs.len(),
        0 <= i,
    ensures
        ranges_ordered(spec_assign_from(cs, bs, m, i, n).1),
    decreases n - i,
{
    if i < n {
        let st = spec_assign_step(cs, bs, m, i);
        let b = bs[i];
        if m.contains_key(b.target) {
            let idx = m[b.target] as int;
            let cs1 = if b.is_tag {
                cs.update(idx, CommitView { tags: cs[idx].tags.push(i as usize), ..cs[idx] })
            } else if !b.is_merged {
                cs.update(
                    idx,
                    CommitView { branches: cs[idx].branches.push(i as usize), ..cs[idx] },
                )
            } else {
                cs
            };
            assert(traces_bounded(cs1, bs.len() as int)) by {
                assert forall|q2: int|
                    0 <= q2 < cs1.len() && (#[trigger] cs1[q2].branch_trace) is Some implies cs1[q2].branch_trace->0
                    < bs.len() by {
                    if q2 != idx {
                        assert(cs1[q2] == cs[q2]);
                    } else {
                        assert(cs1[q2].branch_trace == cs[q2].branch_trace);
                    }
                }
            }
            lemma_trace_ranges_ordered(cs1, bs, m, cs1[idx].oid, i);
            lemma_walk_preserves(cs1, bs, m, i, cs1[idx].oid, None, None, false, (cs1.len() + 1) as nat);
        }
        lemma_assign_ranges_ordered(st.0, st.1, m, i + 1, n);
    }
}

/// Range monotonicity of the tracer: starting from candidates whose ranges
/// are ordered (or still open), every closed active range that the tracing
/// pass leaves behind has its start at or before its end.  This covers the
/// ranges as the tracer closes them, in walked-commit index space, before
/// the final re-indexing of the filtered commit list.
pub proof fn lemma_range_monotone(cs: Seq<CommitView>, bs: Seq<BranchView>, m: Map<u64, usize>)
    requires
        cs.len() <= usize::MAX,
        ranges_ordered(bs),
        traces_bounded(cs, bs.len() as int),
        indices_bounded(m, cs.len() as int),
    ensures
        ranges_ordered(spec_assign_branches(cs, bs, m).1),
{
    lemma_assign_ranges_ordered(cs, bs, m, 0, bs.len() as int);
    let traced = spec_assign_from(cs, bs, m, 0, bs.len() as int);
    lemma_filter_ranges_ordered(traced.0, traced.1, traced.2, 0);
}

proof fn lemma_filter_ranges_ordered(
    cs: Seq<CommitView>,
    bs: Seq<BranchView>,
    mapped: Seq<bool>,
    i: int,
)
    requires
        ranges_ordered(bs),
    ensures
        ranges_ordered(spec_filter_branches(cs, bs, mapped, i)),
    decreases bs.len() - i,
{
    if 0 <= i < bs.len() {
        lemma_filter_ranges_ordered(cs, bs, mapped, i + 1);
        let r = spec_filter_branches(cs, bs, mapped, i);
        let hd = if spec_kept(cs, bs, mapped, i) {
            seq![bs[i]]
        } else {
            Seq::<BranchView>::empty()
        };
        assert forall|q: int|
            0 <= q < r.len() && (#[trigger] r[q]).range.0 is Some && r[q].range.1 is Some implies r[q].range.0->0
            <= r[q].range.1->0 by {
            if q >= hd.len() {
                assert(r[q] == spec_filter_branches(cs, bs, mapped, i + 1)[q - hd.len()]);
            } else {
                assert(r[q] == bs[i]);
            }
        }
    }
}

/// The dense ids are monotone, and a surviving branch's id lies below the
/// final count.
pub proof fn lemma_new_id_bounds(
    cs: Seq<CommitView>,
    bs: Seq<BranchView>,
    mapped: Seq<bool>,
    a: int,
    b: int,
)
    requires
        0 <= a <= b,
    ensures
        spec_new_id(cs, bs, mapped, a) <= spec_new_id(cs, bs, mapped, b),
        a < b && spec_kept(cs, bs, mapped, a) ==> spec_new_id(cs, bs, mapped, a) < spec_new_id(
            cs,
            bs,
            mapped,
            b,
        ),
    decreases b,
{
    if a < b {
        lemma_new_id_bounds(cs, bs, mapped, a, b - 1);
    }
}

/// The surviving branch list is exactly as long as the dense id count.
pub proof fn lemma_filter_branches_len(
    cs: Seq<CommitView>,
    bs: Seq<BranchView>,
    mapped: Seq<bool>,
    i: int,
)
    requires
        0 <= i <= bs.len(),
    ensures
        spec_filter_branches(cs, bs, mapped, i).len() == spec_new_id(cs, bs, mapped, bs.len() as int)
            - spec_new_id(cs, bs, mapped, i),
    decreases bs.len() - i,
{
    if i < bs.len() {
        lemma_filter_branches_len(cs, bs, mapped, i + 1);
        lemma_new_id_bounds(cs, bs, mapped, i, i + 1);
    } else {
        assert(spec_filter_branches(cs, bs, mapped, i).len() == 0);
    }
}

/// After the renumbering, every trace that remains points below the number
/// of surviving branches.
pub proof fn lemma_assign_traces_bounded(cs: Seq<CommitView>, bs: Seq<BranchView>, m: Map<u64, usize>)
    requires
        traces_bounded(cs, bs.len() as int),
        indices_bounded(m, cs.len() as int),
    ensures
        ({
            let r = spec_assign_branches(cs, bs, m);
            forall|i: int|
                0 <= i < r.0.len() && (#[trigger] r.0[i].branch_trace) is Some
                    ==> r.0[i].branch_trace->0 < r.1.len()
        }),
{
    let traced = spec_assign_from(cs, bs, m, 0, bs.len() as int);
    let cs1 = traced.0;
    let bs1 = traced.1;
    let mapped = traced.2;
    let r = spec_assign_branches(cs, bs, m);
    lemma_assign_from_preserves(cs, bs, m, 0, bs.len() as int);
    lemma_filter_branches_len(cs1, bs1, mapped, 0);
    assert forall|i: int|
        0 <= i < r.0.len() && (#[trigger] r.0[i].branch_trace) is Some implies r.0[i].branch_trace->0
        < r.1.len() by {
        assert(r.0[i] == spec_remap_commit(cs1, bs1, mapped, cs1[i]));
        match cs1[i].branch_trace {
            Some(t) => {
                assert(t < bs1.len());
                if spec_kept(cs1, bs1, mapped, t as int) {
                    lemma_new_id_bounds(cs1, bs1, mapped, 0, t as int);
                    lemma_new_id_bounds(cs1, bs1, mapped, t as int, bs1.len() as int);
                }
            },
            None => {},
        }
    }
}

proof fn lemma_walk_claims(
    cs: Seq<CommitView>,
    bs: Seq<BranchView>,
    m: Map<u64, usize>,
    bidx: int,
    curr: u64,
    prev: Option<int>,
    any: bool,
    fuel: nat,
)
    requires
        indices_bounded(m, cs.len() as int),
        parents_topological(cs, m),
        traces_bounded(cs, bs.len() as int),
        0 <= bidx < bs.len(),
        bs[bidx].range.0 is Some,
        m.contains_key(curr) ==> bs[bidx].range.0->0 <= m[curr],
        prev matches Some(pi) ==> 0 <= pi < cs.len() && (m.contains_key(curr) ==> pi < m[curr]),
        forall|i: int|
            0 <= i < cs.len() && (#[trigger] cs[i].branch_trace) == Some(bidx as usize)
                ==> (bs[bidx].range.0->0 <= i && prev is Some && i <= prev->0),
    ensures
        ({
            let r = spec_walk(cs, bs, m, bidx, curr, prev, None, any, fuel);
            &&& r.0.len() == cs.len()
            &&& r.1[bidx].range == bs[bidx].range
            &&& forall|i: int|
                0 <= i < cs.len() && (#[trigger] r.0[i].branch_trace) == Some(bidx as usize)
                    ==> bs[bidx].range.0->0 <= i && (r.2 matches Some(si) ==> i <= si)
        }),
    decreases fuel,
{
    let e = bs[bidx].range.0->0 as int;
    if fuel != 0 && m.contains_key(curr) {
        let index = m[curr] as int;
        let info = cs[index];
        match info.branch_trace {
            Some(old_trace) => {
                assert(info.branch_trace != Some(bidx as usize)) by {
                    if info.branch_trace == Some(bidx as usize) {
                        assert(index <= prev->0);
                    }
                }
                let old_b = bs[old_trace as int];
                let old_end: int = match old_b.range.0 {
                    Some(en) => en as int,
                    None => 0,
                };
                let new_end: int = match bs[bidx].range.0 {
                    Some(en) => en as int,
                    None => 0,
                };
                if old_b.name == bs[bidx].name && old_end >= new_end {
                    let range1 = match old_b.range.1 {
                        Some(oe) => if index > oe {
                            (None, None)
                        } else {
                            (Some(index as usize), old_b.range.1)
                        },
                        None => (Some(index as usize), old_b.range.1),
                    };
                    let bs1 = bs.update(old_trace as int, with_range(old_b, range1));
                    // the commit keeps its owner's trace; the walk ends, so
                    // the claims and this branch's range are as they were
                    assert(old_trace as int != bidx);
                    assert(bs1[bidx] == bs[bidx]);
                } else {
                    // divergence: nothing else is claimed; the start index
                    // lies at or past every claim
                    match prev {
                        Some(pi) => {
                            if cs[pi].is_merge {
                                lemma_sibling_max_ge(info.children, m, curr, pi);
                            }
                        },
                        None => {},
                    }
                }
            },
            None => {
                let cs1 = cs.update(index, with_trace(info, Some(bidx as usize)));
                assert(traces_bounded(cs1, bs.len() as int)) by {
                    assert forall|q: int|
                        0 <= q < cs1.len() && (#[trigger] cs1[q].branch_trace) is Some implies cs1[q].branch_trace->0
                        < bs.len() by {
                        if q != index {
                            assert(cs1[q] == cs[q]);
                        }
                    }
                }
                lemma_topo_preserved(cs1, cs, m);
                if info.parent0 is None {
                    assert forall|i: int|
                        0 <= i < cs.len() && (#[trigger] cs1[i].branch_trace) == Some(
                        bidx as usize,
                    ) implies e <= i && i <= index by {
                        if i != index {
                            assert(cs1[i] == cs[i]);
                        }
                    }
                } else {
                    let par = info.parent0->0;
                    assert(cs1[index].parent(0) == Some(par));
                    if m.contains_key(par) {
                        assert(m[cs1[index].parent(0)->0] > index);
                    }
                    assert forall|i: int|
                        0 <= i < cs1.len() && (#[trigger] cs1[i].branch_trace) == Some(
                        bidx as usize,
                    ) implies bs[bidx].range.0->0 <= i && i <= index by {
                        if i != index {
                            assert(cs1[i] == cs[i]);
                        }
                    }
                    lemma_walk_claims(cs1, bs, m, bidx, par, Some(index), true, (fuel - 1) as nat);
                    let r = spec_walk(cs1, bs, m, bidx, par, Some(index), None, true, (fuel - 1) as nat);
                    assert forall|i: int|
                        0 <= i < cs.len() && (#[trigger] r.0[i].branch_trace) == Some(
                        bidx as usize,
                    ) implies e <= i && (r.2 matches Some(si) ==> i <= si) by {}
                }
            },
        }
    }
}

/// The sibling fold only moves the start index up.
proof fn lemma_sibling_max_ge(children: Seq<u64>, m: Map<u64, usize>, curr: u64, init: int)
    ensures
        spec_sibling_max(children, m, curr, init) >= init,
    decreases children.len(),
{
    if children.len() > 0 {
        lemma_sibling_max_ge(children.drop_last(), m, curr, init);
    }
}

/// Range containment of one trace: every commit the trace claims for its
/// branch lies inside the active range the trace closes (the lower end is
/// the branch's preliminary range end, the upper end is the computed range
/// start); a range left open binds on one side only.
pub proof fn lemma_trace_claims_in_range(
    cs: Seq<CommitView>,
    bs: Seq<BranchView>,
    m: Map<u64, usize>,
    oid: u64,
    bidx: int,
)
    requires
        indices_bounded(m, cs.len() as int),
        parents_topological(cs, m),
        traces_bounded(cs, bs.len() as int),
        cs.len() <= usize::MAX,
        0 <= bidx < bs.len(),
        bs[bidx].range.0 is Some,
        bs[bidx].range.1 is None,
        m.contains_key(oid) ==> bs[bidx].range.0->0 <= m[oid],
        forall|i: int|
            0 <= i < cs.len() ==> (#[trigger] cs[i].branch_trace) != Some(bidx as usize),
    ensures
        ({
            let r = spec_trace_branch(cs, bs, m, oid, bidx);
            forall|i: int|
                0 <= i < r.0.len() && (#[trigger] r.0[i].branch_trace) == Some(bidx as usize) ==> (
                r.1[bidx].range.0 matches Some(s) ==> s <= i) && (r.1[bidx].range.1 matches Some(
                    en,
                ) ==> i <= en)
        }),
{
    let fuel = (cs.len() + 1) as nat;
    lemma_walk_claims(cs, bs, m, bidx, oid, None, false, fuel);
    let walked = spec_walk(cs, bs, m, bidx, oid, None, None, false, fuel);
    lemma_walk_start_bounded(cs, bs, m, bidx, oid, None, None, false, fuel);
    lemma_walk_preserves(cs, bs, m, bidx, oid, None, None, false, fuel);
    let fixed = spec_trace_fixup(walked.1, bidx, walked.2);
    let e = bs[bidx].range.0->0;
    assert forall|i: int|
        0 <= i < walked.0.len() && (#[trigger] walked.0[i].branch_trace) == Some(bidx as usize)
            implies (fixed[bidx].range.0 matches Some(s) ==> s <= i) && (
    fixed[bidx].range.1 matches Some(en) ==> i <= en) by {
        assert(walked.1[bidx].range == bs[bidx].range);
        match walked.2 {
            Some(si) => {
                assert(e <= i <= si);
                if si < e {
                } else {
                    assert(fixed[bidx].range == (Some(e), Some(si as usize)));
                }
            },
            None => {
                assert(fixed[bidx].range == (Some(e), None::<usize>));
            },
        }
    }
}

/// Every traced commit lies inside its branch's active range (closed ends
/// bound it, open ends do not).
pub open spec fn claims_in_ranges(cs: Seq<CommitView>, bs: Seq<BranchView>) -> bool {
    forall|i: int|
        0 <= i < cs.len() && (#[trigger] cs[i].branch_trace) is Some && cs[i].branch_trace->0
            < bs.len() ==> ((bs[cs[i].branch_trace->0 as int].range.0 matches Some(s) ==> s <= i)
            && (bs[cs[i].branch_trace->0 as int].range.1 matches Some(e) ==> i <= e))
}

/// No two branches of the catalog share a display name.
pub open spec fn names_distinct(bs: Seq<BranchView>) -> bool {
    forall|i: int, j: int|
        0 <= i < bs.len() && 0 <= j < bs.len() && i != j ==> (#[trigger] bs[i].name)
            != #[trigger] bs[j].name
}

/// The walk changes nothing of a commit but its trace.
proof fn lemma_walk_traces_only(
    cs: Seq<CommitView>,
    bs: Seq<BranchView>,
    m: Map<u64, usize>,
    bidx: int,
    curr: u64,
    prev: Option<int>,
    start: Option<int>,
    any: bool,
    fuel: nat,
)
    requires
        indices_bounded(m, cs.len() as int),
    ensures
        traces_only_differ(spec_walk(cs, bs, m, bidx, curr, prev, start, any, fuel).0, cs),
    decreases fuel,
{
    assert(traces_only_differ(cs, cs));
    if fuel != 0 && m.contains_key(curr) {
        let index = m[curr] as int;
        let info = cs[index];
        match info.branch_trace {
            Some(_) => {},
            None => {
                let cs1 = cs.update(index, with_trace(info, Some(bidx as usize)));
                if !(info.parent0 is None) {
                    lemma_walk_traces_only(
                        cs1,
                        bs,
                        m,
                        bidx,
                        info.parent0->0,
                        Some(index),
                        start,
                        true,
                        (fuel - 1) as nat,
                    );
                    let r = spec_walk(
                        cs1,
                        bs,
                        m,
                        bidx,
                        info.parent0->0,
                        Some(index),
                        start,
                        true,
                        (fuel - 1) as nat,
                    );
                    assert forall|i: int| 0 <= i < cs.len() implies #[trigger] r.0[i]
                        == with_trace(cs[i], r.0[i].branch_trace) by {
                        assert(r.0[i] == with_trace(cs1[i], r.0[i].branch_trace));
                        if i != index {
                            assert(cs1[i] == cs[i]);
                        }
                    }
                } else {
                    assert forall|i: int| 0 <= i < cs.len() implies #[trigger] cs1[i]
                        == with_trace(cs[i], cs1[i].branch_trace) by {
                        if i != index {
                            assert(cs1[i] == cs[i]);
                        }
                    }
                }
            },
        }
    }
}

/// Under pairwise-distinct branch names, a walk for a fresh branch id
/// leaves every other branch untouched and its own range as it was: the
/// same-name continuation can never fire, since it would need a second
/// branch of the walker's own name.
proof fn lemma_walk_keeps_ranges(
    cs: Seq<CommitView>,
    bs: Seq<BranchView>,
    m: Map<u64, usize>,
    bidx: int,
    curr: u64,
    prev: Option<int>,
    any: bool,
    fuel: nat,
)
    requires
        indices_bounded(m, cs.len() as int),
        parents_topological(cs, m),
        traces_bounded(cs, bs.len() as int),
        0 <= bidx < bs.len(),
        names_distinct(bs),
        prev matches Some(pi) ==> 0 <= pi < cs.len() && (m.contains_key(curr) ==> pi < m[curr]),
        forall|i: int|
            0 <= i < cs.len() && (#[trigger] cs[i].branch_trace) == Some(bidx as usize) ==> (prev
                is Some && i <= prev->0),
    ensures
        ({
            let r = spec_walk(cs, bs, m, bidx, curr, prev, None, any, fuel);
            &&& forall|j: int| 0 <= j < bs.len() && j != bidx ==> #[trigger] r.1[j] == bs[j]
            &&& r.1[bidx].range == bs[bidx].range
            &&& r.1[bidx].name == bs[bidx].name
        }),
    decreases fuel,
{
    if fuel != 0 && m.contains_key(curr) {
        let index = m[curr] as int;
        let info = cs[index];
        match info.branch_trace {
            Some(old_trace) => {
                assert(info.branch_trace != Some(bidx as usize)) by {
                    if info.branch_trace == Some(bidx as usize) {
                        assert(index <= prev->0);
                    }
                }
                let old_b = bs[old_trace as int];
                let old_end: int = match old_b.range.0 {
                    Some(e) => e as int,
                    None => 0,
                };
                let new_end: int = match bs[bidx].range.0 {
                    Some(e) => e as int,
                    None => 0,
                };
                if old_b.name == bs[bidx].name && old_end >= new_end {
                    // two branches of one name: ruled out
                    assert(old_trace as int != bidx);
                    assert(false);
                }
            },
            None => {
                let cs1 = cs.update(index, with_trace(info, Some(bidx as usize)));
                assert(traces_bounded(cs1, bs.len() as int)) by {
                    assert forall|q: int|
                        0 <= q < cs1.len() && (#[trigger] cs1[q].branch_trace) is Some implies cs1[q].branch_trace->0
                        < bs.len() by {
                        if q != index {
                            assert(cs1[q] == cs[q]);
                        }
                    }
                }
                if !(info.parent0 is None) {
                    assert forall|i: int|
                        0 <= i < cs1.len() && (#[trigger] cs1[i].branch_trace) == Some(
                        bidx as usize,
                    ) implies i <= index by {
                        if i != index {
                            assert(cs1[i] == cs[i]);
                        }
                    }
                    assert(traces_only_differ(cs1, cs)) by {
                        assert forall|i: int| 0 <= i < cs1.len() implies #[trigger] cs1[i]
                            == with_trace(cs[i], cs1[i].branch_trace) by {
                            if i != index {
                                assert(cs1[i] == cs[i]);
                            }
                        }
                    }
                    lemma_topo_preserved(cs1, cs, m);
                    assert(cs1[index].parent(0) == Some(info.parent0->0));
                    if m.contains_key(info.parent0->0) {
                        assert(m[cs1[index].parent(0)->0] > index);
                    }
                    lemma_walk_keeps_ranges(
                        cs1,
                        bs,
                        m,
                        bidx,
                        info.parent0->0,
                        Some(index),
                        true,
                        (fuel - 1) as nat,
                    );
                }
            },
        }
    }
}


/// The label push of one tracing step changes only one commit's label
/// lists: oids, parents and traces all stay.
proof fn proof_cs1_shape(cs: Seq<CommitView>, bs: Seq<BranchView>, m: Map<u64, usize>, i: int, idx: int)
    requires
        0 <= i < bs.len(),
        0 <= idx < cs.len(),
    ensures
        ({
            let b = bs[i];
            let cs1 = if b.is_tag {
                cs.update(idx, CommitView { tags: cs[idx].tags.push(i as usize), ..cs[idx] })
            } else if !b.is_merged {
                cs.update(
                    idx,
                    CommitView { branches: cs[idx].branches.push(i as usize), ..cs[idx] },
                )
            } else {
                cs
            };
            &&& cs1.len() == cs.len()
            &&& forall|c: int|
                0 <= c < cs.len() ==> (#[trigger] cs1[c].branch_trace) == cs[c].branch_trace
            &&& forall|c: int|
                0 <= c < cs.len() ==> (#[trigger] cs1[c]).oid == cs[c].oid && cs1[c].parent0
                    == cs[c].parent0 && cs1[c].parent1 == cs[c].parent1
        }),
{
    let b = bs[i];
    let cs1 = if b.is_tag {
        cs.update(idx, CommitView { tags: cs[idx].tags.push(i as usize), ..cs[idx] })
    } else if !b.is_merged {
        cs.update(idx, CommitView { branches: cs[idx].branches.push(i as usize), ..cs[idx] })
    } else {
        cs
    };
    assert forall|c: int| 0 <= c < cs.len() implies (#[trigger] cs1[c].branch_trace)
        == cs[c].branch_trace && (#[trigger] cs1[c]).oid == cs[c].oid && cs1[c].parent0
        == cs[c].parent0 && cs1[c].parent1 == cs[c].parent1 by {
        if c != idx {
            assert(cs1[c] == cs[c]);
        }
    }
}

/// Range containment across the whole tracing pass: with pairwise-distinct
/// branch names, every commit any branch claims lies inside that branch's
/// active range, through all traces of the catalog.  (With duplicate names
/// the same-name continuation may shrink an owner's range over commits it
/// keeps, so the property is stated without such inputs.)
pub proof fn lemma_tracing_claims_in_ranges(
    cs: Seq<CommitView>,
    bs: Seq<BranchView>,
    m: Map<u64, usize>,
    i: int,
    n: int,
)
    requires
        indices_bounded(m, cs.len() as int),
        crate::graph::indices_consistent(m, cs),
        parents_topological(cs, m),
        cs.len() <= usize::MAX,
        n == bs.len(),
        n <= usize::MAX,
        0 <= i <= n,
        names_distinct(bs),
        claims_in_ranges(cs, bs),
        forall|c: int|
            0 <= c < cs.len() && (#[trigger] cs[c].branch_trace) is Some ==> cs[c].branch_trace->0
                < i,
        forall|b: int|
            i <= b < n ==> (#[trigger] bs[b]).range.1 is None && (m.contains_key(bs[b].target)
                ==> (bs[b].range.0 matches Some(v) && v <= m[bs[b].target])),
    ensures
        ({
            let r = spec_assign_from(cs, bs, m, i, n);
            claims_in_ranges(r.0, r.1)
        }),
    decreases n - i,
{
    if i < n {
        let st = spec_assign_step(cs, bs, m, i);
        let b = bs[i];
        if m.contains_key(b.target) {
            let idx = m[b.target] as int;
            let cs1 = if b.is_tag {
                cs.update(idx, CommitView { tags: cs[idx].tags.push(i as usize), ..cs[idx] })
            } else if !b.is_merged {
                cs.update(
                    idx,
                    CommitView { branches: cs[idx].branches.push(i as usize), ..cs[idx] },
                )
            } else {
                cs
            };
            assert(idx < cs.len());
            proof_cs1_shape(cs, bs, m, i, idx);
            let oid = cs1[idx].oid;
            let fuel = (cs1.len() + 1) as nat;
            assert(cs1.len() == cs.len());
            assert(forall|c: int|
                0 <= c < cs1.len() ==> (#[trigger] cs1[c].branch_trace) == cs[c].branch_trace);
            assert(forall|c: int|
                0 <= c < cs1.len() ==> (#[trigger] cs1[c]).oid == cs[c].oid && cs1[c].parent0
                    == cs[c].parent0 && cs1[c].parent1 == cs[c].parent1);
            assert(oid == cs[idx].oid);
            assert(m.contains_key(oid) && m[oid] == idx);
            // the labelled state differs from `cs` only in one label list
            assert(parents_match(cs1, cs)) by {
                assert forall|c: int| 0 <= c < cs1.len() implies (#[trigger] cs1[c]).parent0
                    == cs[c].parent0 && cs1[c].parent1 == cs[c].parent1 by {
                    if c != idx {
                        assert(cs1[c] == cs[c]);
                    }
                }
            }
            assert(forall|c: int|
                0 <= c < cs1.len() ==> (#[trigger] cs1[c].branch_trace) == cs[c].branch_trace)
                by {
                assert forall|c: int| 0 <= c < cs1.len() implies (#[trigger] cs1[c].branch_trace)
                    == cs[c].branch_trace by {
                    if c != idx {
                        assert(cs1[c] == cs[c]);
                    }
                }
            }
            lemma_topo_parents(cs1, cs, m);
            assert(crate::graph::indices_consistent(m, cs1)) by {
                assert forall|c: int| 0 <= c < cs1.len() implies m.contains_key(
                    #[trigger] cs1[c].oid,
                ) && m[cs1[c].oid] == c by {
                    assert(cs1[c].oid == cs[c].oid);
                }
                assert forall|o: u64| m.contains_key(o) implies cs1[#[trigger] m[o] as int].oid
                    == o by {
                    assert(cs1[m[o] as int].oid == cs[m[o] as int].oid);
                }
            }
            assert(traces_bounded(cs1, bs.len() as int)) by {
                assert forall|c: int|
                    0 <= c < cs1.len() && (#[trigger] cs1[c].branch_trace) is Some implies cs1[c].branch_trace->0
                    < bs.len() by {
                    assert(cs1[c].branch_trace == cs[c].branch_trace);
                }
            }
            assert forall|c: int| 0 <= c < cs1.len() implies (#[trigger] cs1[c].branch_trace)
                != Some(i as usize) by {
                assert(cs1[c].branch_trace == cs[c].branch_trace);
            }
            // the walk of branch `i`
            lemma_trace_claims_in_range(cs1, bs, m, oid, i);
            lemma_walk_keeps_ranges(cs1, bs, m, i, oid, None, false, fuel);
            lemma_walk_no_reassign(cs1, bs, m, i, oid, None, None, false, fuel);
            lemma_walk_preserves(cs1, bs, m, i, oid, None, None, false, fuel);
            let walked = spec_walk(cs1, bs, m, i, oid, None, None, false, fuel);
            let traced = spec_trace_branch(cs1, bs, m, oid, i);
            assert(traced.0 == walked.0);
            assert(traced.1 == spec_trace_fixup(walked.1, i, walked.2));
            assert(st.0 == traced.0 && st.1 == traced.1);
            // every branch but `i` is untouched; `i` keeps its name
            assert forall|j: int| 0 <= j < n && j != i implies #[trigger] traced.1[j]
                == bs[j] by {
                assert(walked.1[j] == bs[j]);
            }
            assert(traced.1[i].name == bs[i].name);
            // containment carries to the new state
            assert(claims_in_ranges(traced.0, traced.1)) by {
                assert forall|c: int|
                    0 <= c < traced.0.len() && (#[trigger] traced.0[c].branch_trace) is Some
                        && traced.0[c].branch_trace->0 < traced.1.len() implies ((
                traced.1[traced.0[c].branch_trace->0 as int].range.0 matches Some(s) ==> s <= c)
                    && (traced.1[traced.0[c].branch_trace->0 as int].range.1 matches Some(e) ==> c
                    <= e)) by {
                    let t = traced.0[c].branch_trace->0 as int;
                    if cs1[c].branch_trace is Some {
                        assert(traced.0[c].branch_trace == cs1[c].branch_trace);
                        assert(cs[c].branch_trace == cs1[c].branch_trace);
                        assert(t < i);
                        assert(walked.1[t] == bs[t]);
                        assert(traced.1[t] == walked.1[t]);
                        assert(cs[c].branch_trace == Some(t as usize));
                        assert((bs[t].range.0 matches Some(s2) ==> s2 <= c) && (
                        bs[t].range.1 matches Some(e2) ==> c <= e2));
                    } else {
                        assert(traced.0[c].branch_trace == Some(i as usize));
                        assert((traced.1[i].range.0 matches Some(s2) ==> s2 <= c) && (
                        traced.1[i].range.1 matches Some(e2) ==> c <= e2));
                    }
                }
            }
            // the recursion's hypotheses for the new state
            lemma_walk_traces_only(cs1, bs, m, i, oid, None, None, false, fuel);
            assert(parents_match(traced.0, cs)) by {
                assert forall|c: int| 0 <= c < traced.0.len() implies (
                #[trigger] traced.0[c]).parent0 == cs[c].parent0 && traced.0[c].parent1
                    == cs[c].parent1 by {
                    assert(traced.0[c] == with_trace(cs1[c], traced.0[c].branch_trace));
                }
            }
            lemma_topo_parents(traced.0, cs, m);
            assert(crate::graph::indices_consistent(m, traced.0)) by {
                assert forall|c: int| 0 <= c < traced.0.len() implies m.contains_key(
                    #[trigger] traced.0[c].oid,
                ) && m[traced.0[c].oid] == c by {
                    assert(traced.0[c].oid == cs[c].oid);
                }
                assert forall|o: u64| m.contains_key(o) implies traced.0[#[trigger] m[o] as int].oid
                    == o by {
                    assert(traced.0[m[o] as int].oid == cs[m[o] as int].oid);
                }
            }
            assert(names_distinct(traced.1)) by {
                assert forall|a: int, b2: int|
                    0 <= a < traced.1.len() && 0 <= b2 < traced.1.len() && a != b2 implies (
                #[trigger] traced.1[a].name) != #[trigger] traced.1[b2].name by {
                    assert(traced.1[a].name == bs[a].name);
                    assert(traced.1[b2].name == bs[b2].name);
                }
            }
            assert forall|c: int|
                0 <= c < traced.0.len() && (#[trigger] traced.0[c].branch_trace) is Some implies traced.0[c].branch_trace->0
                < i + 1 by {
                if cs1[c].branch_trace is Some {
                    assert(traced.0[c].branch_trace == cs1[c].branch_trace);
                }
            }
            assert forall|b2: int|
                i + 1 <= b2 < n implies (#[trigger] traced.1[b2]).range.1 is None && (
            m.contains_key(traced.1[b2].target) ==> (traced.1[b2].range.0 matches Some(v) && v
                <= m[traced.1[b2].target])) by {
                assert(traced.1[b2] == bs[b2]);
            }
            lemma_tracing_claims_in_ranges(traced.0, traced.1, m, i + 1, n);
        } else {
            lemma_tracing_claims_in_ranges(cs, bs, m, i + 1, n);
        }
    }
}

/// Dense ids never run ahead of the raw ids.
proof fn lemma_new_id_le(cs: Seq<CommitView>, bs: Seq<BranchView>, mapped: Seq<bool>, t: int)
    requires
        t >= 0,
    ensures
        spec_new_id(cs, bs, mapped, t) <= t,
    decreases t,
{
    if t > 0 {
        lemma_new_id_le(cs, bs, mapped, t - 1);
    }
}

/// A surviving branch sits in the filtered list exactly at its dense id.
proof fn lemma_filter_branches_at(
    cs: Seq<CommitView>,
    bs: Seq<BranchView>,
    mapped: Seq<bool>,
    i: int,
    t: int,
)
    requires
        0 <= i <= t < bs.len(),
        spec_kept(cs, bs, mapped, t),
    ensures
        ({
            let off = spec_new_id(cs, bs, mapped, t) - spec_new_id(cs, bs, mapped, i);
            &&& 0 <= off < spec_filter_branches(cs, bs, mapped, i).len()
            &&& spec_filter_branches(cs, bs, mapped, i)[off] == bs[t]
        }),
    decreases t - i,
{
    lemma_filter_branches_len(cs, bs, mapped, i);
    lemma_new_id_bounds(cs, bs, mapped, i, t);
    lemma_new_id_bounds(cs, bs, mapped, t, bs.len() as int);
    let off = spec_new_id(cs, bs, mapped, t) - spec_new_id(cs, bs, mapped, i);
    let hd = if spec_kept(cs, bs, mapped, i) {
        seq![bs[i]]
    } else {
        Seq::<BranchView>::empty()
    };
    let rest = spec_filter_branches(cs, bs, mapped, i + 1);
    assert(spec_filter_branches(cs, bs, mapped, i) == hd + rest);
    if i < t {
        lemma_filter_branches_at(cs, bs, mapped, i + 1, t);
        lemma_new_id_bounds(cs, bs, mapped, i, i + 1);
        let off1 = spec_new_id(cs, bs, mapped, t) - spec_new_id(cs, bs, mapped, i + 1);
        if spec_kept(cs, bs, mapped, i) {
            assert(spec_new_id(cs, bs, mapped, i + 1) == spec_new_id(cs, bs, mapped, i) + 1);
            assert(off == off1 + 1);
            assert((hd + rest)[off] == rest[off1]);
        } else {
            assert(spec_new_id(cs, bs, mapped, i + 1) == spec_new_id(cs, bs, mapped, i));
            assert(off == off1);
            assert((hd + rest)[off] == rest[off1]);
        }
    } else {
        assert(off == 0);
        assert((hd + rest)[0] == bs[i]);
    }
}

/// Range containment survives the dense renumbering: after the whole
/// branch assignment (tracing, discarding, renumbering), every commit's
/// trace points at a branch whose active range contains it — for catalogs
/// with pairwise-distinct branch names.
pub proof fn lemma_assign_claims_in_ranges(
    cs: Seq<CommitView>,
    bs: Seq<BranchView>,
    m: Map<u64, usize>,
)
    requires
        indices_bounded(m, cs.len() as int),
        crate::graph::indices_consistent(m, cs),
        parents_topological(cs, m),
        cs.len() <= usize::MAX,
        bs.len() <= usize::MAX,
        names_distinct(bs),
        commits_fresh(cs),
        forall|b: int|
            0 <= b < bs.len() ==> (#[trigger] bs[b]).range.1 is None && (m.contains_key(
                bs[b].target,
            ) ==> (bs[b].range.0 matches Some(v) && v <= m[bs[b].target])),
    ensures
        ({
            let r = spec_assign_branches(cs, bs, m);
            claims_in_ranges(r.0, r.1)
        }),
{
    let n = bs.len() as int;
    assert(claims_in_ranges(cs, bs));
    assert(forall|c: int|
        0 <= c < cs.len() && (#[trigger] cs[c].branch_trace) is Some ==> cs[c].branch_trace->0
            < 0);
    lemma_tracing_claims_in_ranges(cs, bs, m, 0, n);
    assert(traces_bounded(cs, n));
    lemma_assign_from_preserves(cs, bs, m, 0, n);
    let traced = spec_assign_from(cs, bs, m, 0, n);
    let cs1 = traced.0;
    let bs1 = traced.1;
    let mapped = traced.2;
    let r = spec_assign_branches(cs, bs, m);
    lemma_filter_branches_len(cs1, bs1, mapped, 0);
    assert forall|c: int|
        0 <= c < r.0.len() && (#[trigger] r.0[c].branch_trace) is Some && r.0[c].branch_trace->0
            < r.1.len() implies ((r.1[r.0[c].branch_trace->0 as int].range.0 matches Some(s) ==> s
        <= c) && (r.1[r.0[c].branch_trace->0 as int].range.1 matches Some(e) ==> c <= e)) by {
        assert(r.0[c] == spec_remap_commit(cs1, bs1, mapped, cs1[c]));
        match cs1[c].branch_trace {
            Some(t) => {
                assert(spec_kept(cs1, bs1, mapped, t as int));
                assert(t < bs1.len());
                lemma_filter_branches_at(cs1, bs1, mapped, 0, t as int);
                assert(spec_new_id(cs1, bs1, mapped, 0) == 0);
                assert(r.1[spec_new_id(cs1, bs1, mapped, t as int)] == bs1[t as int]);
                assert(r.0[c].branch_trace == Some(
                    spec_new_id(cs1, bs1, mapped, t as int) as usize,
                ));
                lemma_new_id_bounds(cs1, bs1, mapped, 0, t as int);
                lemma_new_id_le(cs1, bs1, mapped, t as int);
                assert(spec_new_id(cs1, bs1, mapped, t as int) <= usize::MAX);
                assert(r.0[c].branch_trace->0 as int == spec_new_id(cs1, bs1, mapped, t as int));
                assert((bs1[t as int].range.0 matches Some(s2) ==> s2 <= c) && (
                bs1[t as int].range.1 matches Some(e2) ==> c <= e2));
            },
            None => {
                assert(r.0[c].branch_trace is None);
            },
        }
    }
}

} // verus!
