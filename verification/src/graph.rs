//! A graph structure representing the history of a git repository.
//!
//! Nodes are commits, edges point from a child to its parents.  A *branch*
//! here is a path in the ancestor graph that is drawn as one vertical lane;
//! only the primary parent of a commit can be on the same branch as the
//! commit itself.

use vstd::prelude::*;

use std::collections::HashMap;

use crate::catalog::spec_catalog;
use crate::columns::assign_branch_columns;
use crate::columns::spec_assign_columns;
use crate::link::assign_sources_targets;
use crate::link::correct_fork_merges;
use crate::link::spec_assign_sources_targets;
use crate::link::spec_correct_forks_from;
use crate::settings::BranchOrder;
use crate::settings::Settings;
use crate::trace::assign_branches;
use crate::trace::spec_assign_branches;

verus! {

broadcast use vstd::std_specs::hash::group_hash_axioms;

/// Information about the current HEAD.
pub struct HeadInfo {
    pub oid: u64,
    pub name: String,
    pub is_branch: bool,
}

/// One commit as the repository walker hands it in: identity, up to two
/// parents (child-before-parent order over the whole sequence), and the
/// summary line, if any.
pub struct CommitData {
    pub oid: u64,
    pub parents: (Option<u64>, Option<u64>),
    pub summary: Option<String>,
}

/// One branch ref as the repository walker hands it in: the short name
/// (remote refs keep their `origin/` prefix), the commit it points to, and
/// whether it is a remote ref.
pub struct RefData {
    pub name: String,
    pub target: u64,
    pub is_remote: bool,
}

/// Spec-level image of a branch ref.
#[verifier::ext_equal]
pub ghost struct RefView {
    pub name: Seq<char>,
    pub target: u64,
    pub is_remote: bool,
}

impl View for RefData {
    type V = RefView;

    open spec fn view(&self) -> RefView {
        RefView { name: self.name@, target: self.target, is_remote: self.is_remote }
    }
}

/// One tag as the repository walker hands it in: its name with a `tags/`
/// prefix, and the commit it resolves to.
pub struct TagData {
    pub name: String,
    pub target: u64,
}

/// Spec-level image of a tag.
#[verifier::ext_equal]
pub ghost struct TagView {
    pub name: Seq<char>,
    pub target: u64,
}

impl View for TagData {
    type V = TagView;

    open spec fn view(&self) -> TagView {
        TagView { name: self.name@, target: self.target }
    }
}

/// Spec-level image of a walker commit record.
#[verifier::ext_equal]
pub ghost struct CommitDataView {
    pub oid: u64,
    pub parent0: Option<u64>,
    pub parent1: Option<u64>,
    pub summary: Option<Seq<char>>,
}

impl View for CommitData {
    type V = CommitDataView;

    open spec fn view(&self) -> CommitDataView {
        CommitDataView {
            oid: self.oid,
            parent0: self.parents.0,
            parent1: self.parents.1,
            summary: match self.summary {
                Some(s) => Some(s@),
                None => None,
            },
        }
    }
}

/// Represents a commit.
pub struct CommitInfo {
    pub oid: u64,
    pub is_merge: bool,
    pub parents: (Option<u64>, Option<u64>),
    pub children: Vec<u64>,
    pub branches: Vec<usize>,
    pub tags: Vec<usize>,
    pub branch_trace: Option<usize>,
}

/// Spec-level image of a commit.
#[verifier::ext_equal]
pub ghost struct CommitView {
    pub oid: u64,
    pub is_merge: bool,
    pub parent0: Option<u64>,
    pub parent1: Option<u64>,
    pub children: Seq<u64>,
    pub branches: Seq<usize>,
    pub tags: Seq<usize>,
    pub branch_trace: Option<usize>,
}

impl View for CommitInfo {
    type V = CommitView;

    open spec fn view(&self) -> CommitView {
        CommitView {
            oid: self.oid,
            is_merge: self.is_merge,
            parent0: self.parents.0,
            parent1: self.parents.1,
            children: self.children@,
            branches: self.branches@,
            tags: self.tags@,
            branch_trace: self.branch_trace,
        }
    }
}

impl CommitView {
    /// The parent in slot `p` (0 or 1).
    pub open spec fn parent(&self, p: int) -> Option<u64> {
        if p == 0 {
            self.parent0
        } else {
            self.parent1
        }
    }
}

impl CommitInfo {
    /// Builds the in-memory commit from the walker's plain record: a commit
    /// is a merge exactly when it has a second parent.
    pub fn new(data: &CommitData) -> (r: CommitInfo)
        ensures
            r@ == (CommitView {
                oid: data.oid,
                is_merge: data.parents.1 is Some,
                parent0: data.parents.0,
                parent1: data.parents.1,
                children: Seq::<u64>::empty(),
                branches: Seq::<usize>::empty(),
                tags: Seq::<usize>::empty(),
                branch_trace: None,
            }),
    {
        let r = CommitInfo {
            oid: data.oid,
            is_merge: data.parents.1.is_some(),
            parents: data.parents,
            children: Vec::new(),
            branches: Vec::new(),
            tags: Vec::new(),
            branch_trace: None,
        };
        proof {
            assert(r@ =~= (CommitView {
                oid: data.oid,
                is_merge: data.parents.1 is Some,
                parent0: data.parents.0,
                parent1: data.parents.1,
                children: Seq::<u64>::empty(),
                branches: Seq::<usize>::empty(),
                tags: Seq::<usize>::empty(),
                branch_trace: None,
            }));
        }
        r
    }

    /// The parent in slot `p` (0 or 1).
    pub fn parent(&self, p: usize) -> (r: Option<u64>)
        requires
            p < 2,
        ensures
            r == self@.parent(p as int),
    {
        if p == 0 {
            self.parents.0
        } else {
            self.parents.1
        }
    }
}

/// Branch properties for visualization.
pub struct BranchVis {
    /// The branch's column group (left to right)
    pub order_group: usize,
    /// The branch's merge target column group (left to right)
    pub target_order_group: Option<usize>,
    /// The branch's source branch column group (left to right)
    pub source_order_group: Option<usize>,
    /// The branch's terminal color (index in 256-color palette)
    pub term_color: u8,
    /// SVG color (name or RGB in hex annotation)
    pub svg_color: String,
    /// The column the branch is located in
    pub column: Option<usize>,
}

/// Spec-level image of the visual attributes of a branch.
#[verifier::ext_equal]
pub ghost struct BranchVisView {
    pub order_group: usize,
    pub target_order_group: Option<usize>,
    pub source_order_group: Option<usize>,
    pub term_color: u8,
    pub svg_color: Seq<char>,
    pub column: Option<usize>,
}

impl View for BranchVis {
    type V = BranchVisView;

    open spec fn view(&self) -> BranchVisView {
        BranchVisView {
            order_group: self.order_group,
            target_order_group: self.target_order_group,
            source_order_group: self.source_order_group,
            term_color: self.term_color,
            svg_color: self.svg_color@,
            column: self.column,
        }
    }
}

impl BranchVis {
    pub fn new(order_group: usize, term_color: u8, svg_color: String) -> (r: BranchVis)
        ensures
            r@ == (BranchVisView {
                order_group,
                target_order_group: None,
                source_order_group: None,
                term_color,
                svg_color: svg_color@,
                column: None,
            }),
    {
        BranchVis {
            order_group,
            target_order_group: None,
            source_order_group: None,
            term_color,
            svg_color,
            column: None,
        }
    }
}

/// Represents a branch (real, derived from a merge summary, or a tag).
pub struct BranchInfo {
    pub target: u64,
    pub merge_target: Option<u64>,
    pub source_branch: Option<usize>,
    pub target_branch: Option<usize>,
    pub name: String,
    pub persistence: u8,
    pub is_remote: bool,
    pub is_merged: bool,
    pub is_tag: bool,
    pub visual: BranchVis,
    pub range: (Option<usize>, Option<usize>),
}

/// Spec-level image of a branch.
#[verifier::ext_equal]
pub ghost struct BranchView {
    pub target: u64,
    pub merge_target: Option<u64>,
    pub source_branch: Option<usize>,
    pub target_branch: Option<usize>,
    pub name: Seq<char>,
    pub persistence: u8,
    pub is_remote: bool,
    pub is_merged: bool,
    pub is_tag: bool,
    pub visual: BranchVisView,
    pub range: (Option<usize>, Option<usize>),
}

impl View for BranchInfo {
    type V = BranchView;

    open spec fn view(&self) -> BranchView {
        BranchView {
            target: self.target,
            merge_target: self.merge_target,
            source_branch: self.source_branch,
            target_branch: self.target_branch,
            name: self.name@,
            persistence: self.persistence,
            is_remote: self.is_remote,
            is_merged: self.is_merged,
            is_tag: self.is_tag,
            visual: self.visual@,
            range: self.range,
        }
    }
}

impl BranchInfo {
    pub fn new(
        target: u64,
        merge_target: Option<u64>,
        name: String,
        persistence: u8,
        is_remote: bool,
        is_merged: bool,
        is_tag: bool,
        visual: BranchVis,
        end_index: Option<usize>,
    ) -> (r: BranchInfo)
        ensures
            r@ == (BranchView {
                target,
                merge_target,
                source_branch: None,
                target_branch: None,
                name: name@,
                persistence,
                is_remote,
                is_merged,
                is_tag,
                visual: visual@,
                range: (end_index, None),
            }),
    {
        BranchInfo {
            target,
            merge_target,
            target_branch: None,
            source_branch: None,
            name,
            persistence,
            is_remote,
            is_merged,
            is_tag,
            visual,
            range: (end_index, None),
        }
    }
}

/// The oid-to-index map `m` sends every key to a position below `n`.
pub open spec fn indices_bounded(m: Map<u64, usize>, n: int) -> bool {
    forall|oid: u64| m.contains_key(oid) ==> #[trigger] m[oid] < n
}

/// `m` is exactly the oid-to-index map of `commits`: it maps each commit's
/// oid to its index and nothing else (so oids are unique).
pub open spec fn indices_consistent(m: Map<u64, usize>, commits: Seq<CommitView>) -> bool {
    &&& forall|i: int| 0 <= i < commits.len() ==> m.contains_key(#[trigger] commits[i].oid)
    &&& forall|i: int| 0 <= i < commits.len() ==> #[trigger] m[commits[i].oid] == i
    &&& forall|oid: u64| m.contains_key(oid) ==> #[trigger] m[oid] < commits.len()
    &&& forall|oid: u64| m.contains_key(oid) ==> commits[#[trigger] m[oid] as int].oid == oid
}

/// Every parent edge points forward in the sequence: a parent that is in the
/// walked window has a strictly larger index than its child (the walker
/// emits children before parents).
pub open spec fn parents_topological(commits: Seq<CommitView>, m: Map<u64, usize>) -> bool {
    forall|i: int, p: int|
        0 <= i < commits.len() && 0 <= p < 2 && (#[trigger] commits[i].parent(p)) is Some
            && m.contains_key(commits[i].parent(p)->0) ==> m[commits[i].parent(p)->0] > i
}

/// What one commit contributes to the child list of the commit at index `j`.
pub open spec fn child_contrib(c: CommitView, m: Map<u64, usize>, j: int) -> Seq<u64> {
    let first: Seq<u64> = match c.parent0 {
        Some(p) => if m.contains_key(p) && m[p] == j {
            seq![c.oid]
        } else {
            Seq::<u64>::empty()
        },
        None => Seq::<u64>::empty(),
    };
    let second: Seq<u64> = match c.parent1 {
        Some(p) => if m.contains_key(p) && m[p] == j {
            seq![c.oid]
        } else {
            Seq::<u64>::empty()
        },
        None => Seq::<u64>::empty(),
    };
    first + second
}

/// The child list of the commit at index `j` after the first `n` commits
/// have been scanned.
pub open spec fn children_upto(
    commits: Seq<CommitView>,
    m: Map<u64, usize>,
    j: int,
    n: int,
) -> Seq<u64>
    decreases n,
{
    if n <= 0 {
        commits[j].children
    } else {
        children_upto(commits, m, j, n - 1) + child_contrib(commits[n - 1], m, j)
    }
}

/// A commit with only its child list changed.
pub open spec fn with_children(c: CommitView, children: Seq<u64>) -> CommitView {
    CommitView { children, ..c }
}

/// Appends `oid` to the child list of the commit at index `i`; nothing else
/// changes.
fn push_child(commits: &mut Vec<CommitInfo>, i: usize, oid: u64)
    requires
        i < old(commits)@.len(),
    ensures
        final(commits)@.len() == old(commits)@.len(),
        final(commits)@[i as int]@ == with_children(
            old(commits)@[i as int]@,
            old(commits)@[i as int]@.children.push(oid),
        ),
        forall|j: int|
            0 <= j < final(commits)@.len() && j != i ==> final(commits)@[j] == old(commits)@[j],
{
    let ghost snap = commits@;
    let mut info = commits.remove(i);
    info.children.push(oid);
    commits.insert(i, info);
    proof {
        assert forall|j: int| 0 <= j < commits@.len() && j != i implies commits@[j] == snap[j] by {
            assert(commits@ == snap.remove(i as int).insert(i as int, commits@[i as int]));
        }
        assert(commits@[i as int]@ =~= with_children(
            snap[i as int]@,
            snap[i as int]@.children.push(oid),
        ));
    }
}

/// Walks through the commits and adds each commit's oid to the children of
/// its parents, in one forward pass; everything but the child lists stays
/// unchanged.
pub fn assign_children(commits: &mut Vec<CommitInfo>, indices: &HashMap<u64, usize>)
    requires
        indices_bounded(indices@, old(commits)@.len() as int),
    ensures
        final(commits)@.len() == old(commits)@.len(),
        forall|j: int|
            0 <= j < final(commits)@.len() ==> #[trigger] final(commits)@[j]@ == with_children(
                old(commits)@[j]@,
                children_upto(
                    old(commits)@.map_values(|c: CommitInfo| c@),
                    indices@,
                    j,
                    old(commits)@.len() as int,
                ),
            ),
{
    let ghost cs0 = old(commits)@.map_values(|c: CommitInfo| c@);
    let n = commits.len();
    let mut idx: usize = 0;
    while idx < n
        invariant
            idx <= n,
            commits@.len() == n,
            forall|j: int|
                0 <= j < n ==> #[trigger] commits@[j]@ == with_children(
                    cs0[j],
                    children_upto(cs0, indices@, j, idx as int),
                ),
        decreases n - idx,
    {
        let ghost snap = commits@;
        let oid = commits[idx].oid;
        let par0 = commits[idx].parent(0);
        let par1 = commits[idx].parent(1);
        proof {
            assert(oid == cs0[idx as int].oid);
            assert(par0 == cs0[idx as int].parent0);
            assert(par1 == cs0[idx as int].parent1);
        }
        let mut did0 = false;
        if let Some(par_oid) = par0 {
            if let Some(par_idx) = indices.get(&par_oid) {
                push_child(commits, *par_idx, oid);
                did0 = true;
            }
        }
        proof {
            assert forall|j: int| 0 <= j < n implies #[trigger] commits@[j]@ == with_children(
                snap[j]@,
                snap[j]@.children + partial_contrib(cs0[idx as int], indices@, j, 1),
            ) by {
                if did0 && j == indices@[cs0[idx as int].parent0->0] {
                    assert(snap[j]@.children + partial_contrib(cs0[idx as int], indices@, j, 1)
                        =~= snap[j]@.children.push(cs0[idx as int].oid));
                } else {
                    assert(commits@[j] == snap[j]);
                    assert(snap[j]@.children + partial_contrib(cs0[idx as int], indices@, j, 1)
                        =~= snap[j]@.children);
                    assert(snap[j]@ =~= with_children(snap[j]@, snap[j]@.children));
                }
            }
        }
        let ghost mid = commits@;
        let mut did1 = false;
        if let Some(par_oid) = par1 {
            if let Some(par_idx) = indices.get(&par_oid) {
                push_child(commits, *par_idx, oid);
                did1 = true;
            }
        }
        proof {
            assert forall|j: int| 0 <= j < n implies #[trigger] commits@[j]@ == with_children(
                cs0[j],
                children_upto(cs0, indices@, j, idx as int + 1),
            ) by {
                let c = cs0[idx as int];
                assert(children_upto(cs0, indices@, j, idx as int + 1) == children_upto(
                    cs0,
                    indices@,
                    j,
                    idx as int,
                ) + child_contrib(c, indices@, j));
                if did1 && j == indices@[c.parent1->0] {
                    assert(commits@[j]@.children =~= mid[j]@.children.push(c.oid));
                } else {
                    assert(commits@[j] == mid[j]);
                }
                assert(mid[j]@ == with_children(
                    snap[j]@,
                    snap[j]@.children + partial_contrib(c, indices@, j, 1),
                ));
                assert(snap[j]@ == with_children(
                    cs0[j],
                    children_upto(cs0, indices@, j, idx as int),
                ));
                assert(commits@[j]@.children =~= children_upto(cs0, indices@, j, idx as int)
                    + child_contrib(c, indices@, j));
                assert(commits@[j]@ =~= with_children(
                    cs0[j],
                    children_upto(cs0, indices@, j, idx as int + 1),
                ));
            }
        }
        idx += 1;
    }
}

/// The contribution of commit `c` to the child list of index `j`, counting
/// only the first `p` parent slots.
pub open spec fn partial_contrib(c: CommitView, m: Map<u64, usize>, j: int, p: int) -> Seq<u64> {
    if p <= 0 {
        Seq::<u64>::empty()
    } else if p == 1 {
        match c.parent0 {
            Some(q) => if m.contains_key(q) && m[q] == j {
                seq![c.oid]
            } else {
                Seq::<u64>::empty()
            },
            None => Seq::<u64>::empty(),
        }
    } else {
        child_contrib(c, m, j)
    }
}

/// A commit with only its branch-trace changed.
pub open spec fn with_trace(c: CommitView, t: Option<usize>) -> CommitView {
    CommitView { branch_trace: t, ..c }
}

/// Sets the branch trace of the commit at `i`; nothing else changes.
pub fn set_commit_trace(commits: &mut Vec<CommitInfo>, i: usize, t: Option<usize>)
    requires
        i < old(commits)@.len(),
    ensures
        final(commits)@.len() == old(commits)@.len(),
        final(commits)@[i as int]@ == with_trace(old(commits)@[i as int]@, t),
        forall|j: int|
            0 <= j < final(commits)@.len() && j != i ==> final(commits)@[j] == old(commits)@[j],
{
    let ghost snap = commits@;
    let mut info = commits.remove(i);
    info.branch_trace = t;
    commits.insert(i, info);
    proof {
        assert forall|j: int| 0 <= j < commits@.len() && j != i implies commits@[j] == snap[j] by {
            assert(commits@ == snap.remove(i as int).insert(i as int, commits@[i as int]));
        }
        assert(commits@[i as int]@ =~= with_trace(snap[i as int]@, t));
    }
}

/// Appends a real-branch label to the commit at `i`; nothing else changes.
pub fn push_commit_branch_label(commits: &mut Vec<CommitInfo>, i: usize, label: usize)
    requires
        i < old(commits)@.len(),
    ensures
        final(commits)@.len() == old(commits)@.len(),
        final(commits)@[i as int]@ == (CommitView {
            branches: old(commits)@[i as int]@.branches.push(label),
            ..old(commits)@[i as int]@
        }),
        forall|j: int|
            0 <= j < final(commits)@.len() && j != i ==> final(commits)@[j] == old(commits)@[j],
{
    let ghost snap = commits@;
    let mut info = commits.remove(i);
    info.branches.push(label);
    commits.insert(i, info);
    proof {
        assert forall|j: int| 0 <= j < commits@.len() && j != i implies commits@[j] == snap[j] by {
            assert(commits@ == snap.remove(i as int).insert(i as int, commits@[i as int]));
        }
        assert(commits@[i as int]@ =~= (CommitView {
            branches: snap[i as int]@.branches.push(label),
            ..snap[i as int]@
        }));
    }
}

/// Appends a tag label to the commit at `i`; nothing else changes.
pub fn push_commit_tag_label(commits: &mut Vec<CommitInfo>, i: usize, label: usize)
    requires
        i < old(commits)@.len(),
    ensures
        final(commits)@.len() == old(commits)@.len(),
        final(commits)@[i as int]@ == (CommitView {
            tags: old(commits)@[i as int]@.tags.push(label),
            ..old(commits)@[i as int]@
        }),
        forall|j: int|
            0 <= j < final(commits)@.len() && j != i ==> final(commits)@[j] == old(commits)@[j],
{
    let ghost snap = commits@;
    let mut info = commits.remove(i);
    info.tags.push(label);
    commits.insert(i, info);
    proof {
        assert forall|j: int| 0 <= j < commits@.len() && j != i implies commits@[j] == snap[j] by {
            assert(commits@ == snap.remove(i as int).insert(i as int, commits@[i as int]));
        }
        assert(commits@[i as int]@ =~= (CommitView {
            tags: snap[i as int]@.tags.push(label),
            ..snap[i as int]@
        }));
    }
}

/// A branch with only its active range changed.
pub open spec fn with_range(b: BranchView, range: (Option<usize>, Option<usize>)) -> BranchView {
    BranchView { range, ..b }
}

/// Sets the active range of the branch at `i`; nothing else changes.
pub fn set_branch_range(
    branches: &mut Vec<BranchInfo>,
    i: usize,
    range: (Option<usize>, Option<usize>),
)
    requires
        i < old(branches)@.len(),
    ensures
        final(branches)@.len() == old(branches)@.len(),
        final(branches)@[i as int]@ == with_range(old(branches)@[i as int]@, range),
        forall|j: int|
            0 <= j < final(branches)@.len() && j != i ==> final(branches)@[j] == old(branches)@[j],
{
    let ghost snap = branches@;
    let mut b = branches.remove(i);
    b.range = range;
    branches.insert(i, b);
    proof {
        assert forall|j: int| 0 <= j < branches@.len() && j != i implies branches@[j] == snap[j] by {
            assert(branches@ == snap.remove(i as int).insert(i as int, branches@[i as int]));
        }
        assert(branches@[i as int]@ =~= with_range(snap[i as int]@, range));
    }
}

/// A branch with only its terminal and SVG colors changed.
pub open spec fn with_colors(b: BranchView, term: u8, svg: Seq<char>) -> BranchView {
    BranchView {
        visual: BranchVisView { term_color: term, svg_color: svg, ..b.visual },
        ..b
    }
}

/// Sets the terminal and SVG colors of the branch at `i`; nothing else
/// changes.
pub fn set_branch_colors(branches: &mut Vec<BranchInfo>, i: usize, term: u8, svg: String)
    requires
        i < old(branches)@.len(),
    ensures
        final(branches)@.len() == old(branches)@.len(),
        final(branches)@[i as int]@ == with_colors(old(branches)@[i as int]@, term, svg@),
        forall|j: int|
            0 <= j < final(branches)@.len() && j != i ==> final(branches)@[j] == old(branches)@[j],
{
    let ghost snap = branches@;
    let mut b = branches.remove(i);
    b.visual.term_color = term;
    b.visual.svg_color = svg;
    branches.insert(i, b);
    proof {
        assert forall|j: int| 0 <= j < branches@.len() && j != i implies branches@[j] == snap[j] by {
            assert(branches@ == snap.remove(i as int).insert(i as int, branches@[i as int]));
        }
        assert(branches@[i as int]@ =~= with_colors(snap[i as int]@, term, svg@));
    }
}

/// A branch renamed by the fork correction: new name, order group and
/// colors.
pub open spec fn with_fork_name(
    b: BranchView,
    name: Seq<char>,
    order_group: usize,
    term: u8,
    svg: Seq<char>,
) -> BranchView {
    BranchView {
        name,
        visual: BranchVisView { order_group, term_color: term, svg_color: svg, ..b.visual },
        ..b
    }
}

/// Renames the branch at `i` and updates its order group and colors;
/// nothing else changes.
pub fn set_branch_fork_name(
    branches: &mut Vec<BranchInfo>,
    i: usize,
    name: String,
    order_group: usize,
    term: u8,
    svg: String,
)
    requires
        i < old(branches)@.len(),
    ensures
        final(branches)@.len() == old(branches)@.len(),
        final(branches)@[i as int]@ == with_fork_name(
            old(branches)@[i as int]@,
            name@,
            order_group,
            term,
            svg@,
        ),
        forall|j: int|
            0 <= j < final(branches)@.len() && j != i ==> final(branches)@[j] == old(branches)@[j],
{
    let ghost snap = branches@;
    let mut b = branches.remove(i);
    b.name = name;
    b.visual.order_group = order_group;
    b.visual.term_color = term;
    b.visual.svg_color = svg;
    branches.insert(i, b);
    proof {
        assert forall|j: int| 0 <= j < branches@.len() && j != i implies branches@[j] == snap[j] by {
            assert(branches@ == snap.remove(i as int).insert(i as int, branches@[i as int]));
        }
        assert(branches@[i as int]@ =~= with_fork_name(snap[i as int]@, name@, order_group, term, svg@));
    }
}


/// Represents a git history graph: the filtered, re-indexed commit list,
/// its oid-to-index map, the surviving branches with their columns, and the
/// current HEAD.
pub struct GitGraph {
    pub commits: Vec<CommitInfo>,
    /// Mapping from commit id to index in `commits`
    pub indices: HashMap<u64, usize>,
    /// All detected branches and tags, including merged and deleted
    pub all_branches: Vec<BranchInfo>,
    /// The current HEAD
    pub head: HeadInfo,
}

/// The commit list exactly as it comes from the walker, before any pass.
pub open spec fn spec_initial_commits(ds: Seq<CommitDataView>) -> Seq<CommitView> {
    ds.map_values(
        |d: CommitDataView|
            CommitView {
                oid: d.oid,
                is_merge: d.parent1 is Some,
                parent0: d.parent0,
                parent1: d.parent1,
                children: Seq::<u64>::empty(),
                branches: Seq::<usize>::empty(),
                tags: Seq::<usize>::empty(),
                branch_trace: None,
            },
    )
}

/// The oid-to-index map over the first `i` walked commits.
pub open spec fn spec_build_map(ds: Seq<CommitDataView>, i: int) -> Map<u64, usize>
    decreases i,
{
    if i <= 0 {
        Map::<u64, usize>::empty()
    } else {
        spec_build_map(ds, i - 1).insert(ds[i - 1].oid, (i - 1) as usize)
    }
}

/// The oid-to-index map of an already-built commit sequence.
pub open spec fn spec_commit_map(cs: Seq<CommitView>, i: int) -> Map<u64, usize>
    decreases i,
{
    if i <= 0 {
        Map::<u64, usize>::empty()
    } else {
        spec_commit_map(cs, i - 1).insert(cs[i - 1].oid, (i - 1) as usize)
    }
}

/// The map only holds positions below `i`.
proof fn lemma_build_map_bounded(ds: Seq<CommitDataView>, i: int)
    requires
        0 <= i,
    ensures
        indices_bounded(spec_build_map(ds, i), i),
    decreases i,
{
    if i > 0 {
        lemma_build_map_bounded(ds, i - 1);
    }
}

/// The new index of the commit at old position `j`: how many traced commits
/// come before it.
pub open spec fn spec_new_commit_index(cs: Seq<CommitView>, j: int) -> int
    decreases j,
{
    if j <= 0 {
        0
    } else {
        spec_new_commit_index(cs, j - 1) + if cs[j - 1].branch_trace is Some {
            1int
        } else {
            0int
        }
    }
}

/// The commits that survive filtering (those on a branch), from `i` on.
pub open spec fn spec_filter_commits(cs: Seq<CommitView>, i: int) -> Seq<CommitView>
    decreases cs.len() - i,
{
    if i < 0 || i >= cs.len() {
        Seq::<CommitView>::empty()
    } else {
        (if cs[i].branch_trace is Some {
            seq![cs[i]]
        } else {
            Seq::<CommitView>::empty()
        }) + spec_filter_commits(cs, i + 1)
    }
}

/// The new index of the first surviving commit at or after `j`.
pub open spec fn spec_forward_index(cs: Seq<CommitView>, j: int) -> Option<usize>
    decreases cs.len() - j,
{
    if j < 0 || j >= cs.len() {
        None
    } else if cs[j].branch_trace is Some {
        Some(spec_new_commit_index(cs, j) as usize)
    } else {
        spec_forward_index(cs, j + 1)
    }
}

/// The new index of the last surviving commit at or before `j`.
pub open spec fn spec_backward_index(cs: Seq<CommitView>, j: int) -> Option<usize>
    decreases j + 1,
{
    if j < 0 {
        None
    } else if j >= cs.len() {
        spec_backward_index(cs, cs.len() - 1)
    } else if cs[j].branch_trace is Some {
        Some(spec_new_commit_index(cs, j) as usize)
    } else {
        spec_backward_index(cs, j - 1)
    }
}

/// A branch with its active range carried from old to new commit indices:
/// each closed end moves inward to the nearest surviving commit.
pub open spec fn spec_remap_range(cs: Seq<CommitView>, b: BranchView) -> BranchView {
    let r0 = match b.range.0 {
        Some(st) => spec_forward_index(cs, st as int),
        None => None,
    };
    let r1 = match b.range.1 {
        Some(en) => spec_backward_index(cs, en as int),
        None => None,
    };
    BranchView { range: (r0, r1), ..b }
}

/// The whole graph construction on walked plain data: child lists, branch
/// catalog, tracing, fork renaming, linking, column assignment, and the
/// final filtering and re-indexing; or the first error.
pub open spec fn spec_build_graph(
    ds: Seq<CommitDataView>,
    refs: Seq<RefView>,
    tags: Seq<TagView>,
    settings: Settings,
    shortest_first: bool,
    forward: bool,
) -> Result<(Seq<CommitView>, Seq<BranchView>), Seq<char>> {
    let n = ds.len() as int;
    let cs0 = spec_initial_commits(ds);
    let m = spec_build_map(ds, n);
    let cs1 = Seq::<CommitView>::new(
        ds.len(),
        |j: int| with_children(cs0[j], children_upto(cs0, m, j, n)),
    );
    match spec_catalog(
        refs,
        ds,
        tags,
        m,
        settings.branches,
        settings.include_remote,
        settings.merge_patterns.patterns@.map_values(|p: String| p@),
    ) {
        Err(e) => Err(e),
        Ok(bs_cat) => {
            let asg = spec_assign_branches(cs1, bs_cat, m);
            match spec_correct_forks_from(
                asg.0,
                asg.1,
                m,
                settings.branches,
                0,
                asg.1.len() as int,
            ) {
                Err(e) => Err(e),
                Ok(bs2) => {
                    let bs3 = spec_assign_sources_targets(asg.0, bs2, m);
                    let bs4 = spec_assign_columns(
                        asg.0,
                        bs3,
                        m,
                        settings.branches.order@.len() as int,
                        shortest_first,
                        forward,
                    );
                    Ok(
                        (
                            spec_filter_commits(asg.0, 0),
                            bs4.map_values(|b: BranchView| spec_remap_range(asg.0, b)),
                        ),
                    )
                },
            }
        },
    }
}

impl GitGraph {
    /// Generate a branch graph from the walked commits, refs and tags of a
    /// repository.
    #[verifier::loop_isolation(true)]
    #[verifier::rlimit(100)]
    pub fn new(
        commit_data: Vec<CommitData>,
        refs: Vec<RefData>,
        tags: Vec<TagData>,
        head: HeadInfo,
        settings: &Settings,
    ) -> (r: Result<GitGraph, String>)
        requires
            crate::catalog::catalog_wf(settings.branches),
            settings.branches.order@.len() < usize::MAX,
            refs@.len() + commit_data@.len() + tags@.len() <= usize::MAX,
            parents_topological(
                spec_initial_commits(commit_data@.map_values(|d: CommitData| d@)),
                spec_build_map(
                    commit_data@.map_values(|d: CommitData| d@),
                    commit_data@.len() as int,
                ),
            ),
        ensures
            ({
                let spec = spec_build_graph(
                    commit_data@.map_values(|d: CommitData| d@),
                    refs@.map_values(|x: RefData| x@),
                    tags@.map_values(|x: TagData| x@),
                    *settings,
                    settings.branch_order is ShortestFirst,
                    match settings.branch_order {
                        BranchOrder::ShortestFirst(fwd) => fwd,
                        BranchOrder::LongestFirst(fwd) => fwd,
                    },
                );
                match r {
                    Ok(g) => {
                        &&& spec == Ok::<_, Seq<char>>(
                            (
                                g.commits@.map_values(|c: CommitInfo| c@),
                                g.all_branches@.map_values(|b: BranchInfo| b@),
                            ),
                        )
                        &&& g.indices@ == spec_commit_map(
                            g.commits@.map_values(|c: CommitInfo| c@),
                            g.commits@.len() as int,
                        )
                        &&& g.head == head
                        &&& forall|i: int|
                            0 <= i < g.commits@.len() ==> ((#[trigger] g.commits@[i]@.branch_trace)
                                is Some && g.commits@[i]@.branch_trace->0
                                < g.all_branches@.len())
                    },
                    Err(e) => spec == Err::<(Seq<CommitView>, Seq<BranchView>), _>(e@),
                }
            }),
    {
        let ghost ds = commit_data@.map_values(|d: CommitData| d@);
        let n = commit_data.len();
        let mut commits: Vec<CommitInfo> = Vec::new();
        let mut indices: HashMap<u64, usize> = HashMap::new();
        let mut idx: usize = 0;
        while idx < n
            invariant
                idx <= n,
                n == ds.len(),
                commit_data@.len() == n,
                ds == commit_data@.map_values(|d: CommitData| d@),
                commits@.len() == idx,
                forall|j: int|
                    0 <= j < idx ==> #[trigger] commits@[j]@ == spec_initial_commits(ds)[j],
                indices@ == spec_build_map(ds, idx as int),
            decreases n - idx,
        {
            let info = CommitInfo::new(&commit_data[idx]);
            commits.push(info);
            indices.insert(commit_data[idx].oid, idx);
            idx += 1;
        }
        let ghost cs0 = spec_initial_commits(ds);
        let ghost m = spec_build_map(ds, n as int);
        proof {
            lemma_build_map_bounded(ds, n as int);
            assert(commits@.map_values(|c: CommitInfo| c@) =~= cs0);
        }
        assign_children(&mut commits, &indices);
        let ghost cs1 = Seq::<CommitView>::new(
            ds.len(),
            |j: int| with_children(cs0[j], children_upto(cs0, m, j, n as int)),
        );
        proof {
            assert(commits@.map_values(|c: CommitInfo| c@) =~= cs1);
            assert(crate::trace::commits_fresh(cs1));
            assert forall|i: int, p: int|
                0 <= i < cs1.len() && 0 <= p < 2 && (#[trigger] cs1[i].parent(p)) is Some
                    && m.contains_key(cs1[i].parent(p)->0) implies m[cs1[i].parent(p)->0] > i by {
                assert(cs1[i].parent(p) == cs0[i].parent(p));
            }
        }
        let mut all_branches = match assign_branches(
            &refs,
            &commit_data,
            &tags,
            &mut commits,
            &indices,
            settings,
        ) {
            Ok(v) => v,
            Err(e) => {
                proof {
                    assert(spec_build_graph(
                        ds,
                        refs@.map_values(|x: RefData| x@),
                        tags@.map_values(|x: TagData| x@),
                        *settings,
                        settings.branch_order is ShortestFirst,
                        match settings.branch_order {
                            BranchOrder::ShortestFirst(fwd) => fwd,
                            BranchOrder::LongestFirst(fwd) => fwd,
                        },
                    ) == Err::<(Seq<CommitView>, Seq<BranchView>), Seq<char>>(e@));
                }
                return Err(e);
            },
        };
        match correct_fork_merges(&commits, &indices, &mut all_branches, settings) {
            Ok(()) => (),
            Err(e) => {
                proof {
                    assert(spec_build_graph(
                        ds,
                        refs@.map_values(|x: RefData| x@),
                        tags@.map_values(|x: TagData| x@),
                        *settings,
                        settings.branch_order is ShortestFirst,
                        match settings.branch_order {
                            BranchOrder::ShortestFirst(fwd) => fwd,
                            BranchOrder::LongestFirst(fwd) => fwd,
                        },
                    ) == Err::<(Seq<CommitView>, Seq<BranchView>), Seq<char>>(e@));
                }
                return Err(e);
            },
        }
        assign_sources_targets(&commits, &indices, &mut all_branches);
        proof {
            let pats = settings.merge_patterns.patterns@.map_values(|p: String| p@);
            let cat = spec_catalog(
                refs@.map_values(|x: RefData| x@),
                ds,
                tags@.map_values(|x: TagData| x@),
                m,
                settings.branches,
                settings.include_remote,
                pats,
            );
            crate::catalog::lemma_catalog_columns_none(
                refs@.map_values(|x: RefData| x@),
                ds,
                tags@.map_values(|x: TagData| x@),
                m,
                settings.branches,
                settings.include_remote,
                pats,
            );
            let bs_cat = cat->Ok_0;
            crate::trace::lemma_assign_from_preserves(cs1, bs_cat, m, 0, bs_cat.len() as int);
            let asg = spec_assign_branches(cs1, bs_cat, m);
            let traced = crate::trace::spec_assign_from(cs1, bs_cat, m, 0, bs_cat.len() as int);
            crate::trace::lemma_filter_branches_columns(traced.0, traced.1, traced.2, 0);
            assert(forall|j: int|
                0 <= j < asg.1.len() ==> (#[trigger] asg.1[j]).visual.column is None);
            crate::link::lemma_forks_preserve_columns(
                asg.0,
                asg.1,
                m,
                settings.branches,
                0,
                asg.1.len() as int,
            );
            let bs2 = spec_correct_forks_from(
                asg.0,
                asg.1,
                m,
                settings.branches,
                0,
                asg.1.len() as int,
            )->Ok_0;
            crate::link::lemma_links_preserve_columns(asg.0, bs2, m);
            assert(crate::columns::columns_unset(all_branches@.map_values(|b: BranchInfo| b@)));
        }
        let shortest_first = match settings.branch_order {
            BranchOrder::ShortestFirst(_) => true,
            BranchOrder::LongestFirst(_) => false,
        };
        let forward = match settings.branch_order {
            BranchOrder::ShortestFirst(fwd) => fwd,
            BranchOrder::LongestFirst(fwd) => fwd,
        };
        assign_branch_columns(
            &commits,
            &indices,
            &mut all_branches,
            &settings.branches,
            shortest_first,
            forward,
        );
        // drop commits that are on no branch; all later indices are dense
        let ghost csf = commits@.map_values(|c: CommitInfo| c@);
        proof {
            assert(csf.len() == n);
        }
        let mut filtered: Vec<CommitInfo> = Vec::new();
        let mut index_map: Vec<Option<usize>> = Vec::new();
        let mut rest = commits;
        let mut i: usize = 0;
        while i < n
            invariant
                i <= n,
                n == csf.len(),
                rest@.len() == n - i,
                rest@.map_values(|c: CommitInfo| c@) =~= csf.skip(i as int),
                index_map@.len() == i,
                filtered@.len() as int == spec_new_commit_index(csf, i as int),
                forall|j: int|
                    0 <= j < i ==> #[trigger] index_map@[j] == (if csf[j].branch_trace is Some {
                        Some(spec_new_commit_index(csf, j) as usize)
                    } else {
                        None::<usize>
                    }),
                filtered@.map_values(|c: CommitInfo| c@) + spec_filter_commits(csf, i as int)
                    =~= spec_filter_commits(csf, 0),
            decreases n - i,
        {
            let ghost pre_rest = rest@;
            let c = rest.remove(0);
            proof {
                assert(pre_rest.map_values(|x: CommitInfo| x@)[0] == csf.skip(i as int)[0]);
                assert(c@ == csf[i as int]);
                assert forall|k: int| 0 <= k < rest@.len() implies (#[trigger] rest@[k])@
                    == csf.skip(i as int + 1)[k] by {
                    assert(rest@[k] == pre_rest[k + 1]);
                    assert(pre_rest.map_values(|x: CommitInfo| x@)[k + 1] == csf.skip(i as int)[k
                        + 1]);
                }
                assert(rest@.map_values(|x: CommitInfo| x@) =~= csf.skip(i as int + 1));
            }
            let keep = c.branch_trace.is_some();
            let ghost pre_filtered = filtered@.map_values(|x: CommitInfo| x@);
            if keep {
                index_map.push(Some(filtered.len()));
                filtered.push(c);
                proof {
                    assert(filtered@.map_values(|x: CommitInfo| x@) =~= pre_filtered.push(
                        csf[i as int],
                    ));
                }
            } else {
                index_map.push(None);
            }
            proof {
                assert(spec_filter_commits(csf, i as int) == (if csf[i as int].branch_trace
                    is Some {
                    seq![csf[i as int]]
                } else {
                    Seq::<CommitView>::empty()
                }) + spec_filter_commits(csf, i as int + 1));
                if csf[i as int].branch_trace is Some {
                    assert(pre_filtered.push(csf[i as int]) + spec_filter_commits(
                        csf,
                        i as int + 1,
                    ) =~= pre_filtered + (seq![csf[i as int]] + spec_filter_commits(
                        csf,
                        i as int + 1,
                    )));
                } else {
                    assert(pre_filtered + spec_filter_commits(csf, i as int + 1) =~= pre_filtered
                        + (Seq::<CommitView>::empty() + spec_filter_commits(csf, i as int + 1)));
                }
            }
            i += 1;
        }
        proof {
            assert(spec_filter_commits(csf, n as int) =~= Seq::<CommitView>::empty());
            assert(filtered@.map_values(|c: CommitInfo| c@) + Seq::<CommitView>::empty()
                =~= filtered@.map_values(|c: CommitInfo| c@));
        }
        // carry every branch range into the new index space
        let nb = all_branches.len();
        let ghost bs4 = all_branches@.map_values(|b: BranchInfo| b@);
        let mut bi: usize = 0;
        while bi < nb
            invariant
                bi <= nb,
                all_branches@.len() == nb,
                nb == bs4.len(),
                n == csf.len(),
                index_map@.len() == n,
                forall|j: int|
                    0 <= j < n ==> #[trigger] index_map@[j] == (if csf[j].branch_trace is Some {
                        Some(spec_new_commit_index(csf, j) as usize)
                    } else {
                        None::<usize>
                    }),
                forall|j: int|
                    bi <= j < nb ==> #[trigger] all_branches@[j]@ == bs4[j],
                forall|j: int|
                    0 <= j < bi ==> #[trigger] all_branches@[j]@ == spec_remap_range(csf, bs4[j]),
            decreases nb - bi,
        {
            let r0: Option<usize> = match all_branches[bi].range.0 {
                Some(st) => {
                    let mut j = st;
                    let mut res: Option<usize> = None;
                    while j < n && res.is_none()
                        invariant
                            st <= j <= n || (st >= n && j == st),
                            n == csf.len(),
                            index_map@.len() == n,
                            forall|q: int|
                                0 <= q < n ==> #[trigger] index_map@[q] == (if csf[q].branch_trace
                                    is Some {
                                    Some(spec_new_commit_index(csf, q) as usize)
                                } else {
                                    None::<usize>
                                }),
                            res is None ==> spec_forward_index(csf, st as int)
                                == spec_forward_index(csf, j as int),
                            res is Some ==> spec_forward_index(csf, st as int) == res,
                        decreases n - j + (if res is None {
                            1int
                        } else {
                            0int
                        }),
                    {
                        res = index_map[j];
                        if res.is_none() {
                            j += 1;
                        }
                    }
                    res
                },
                None => None,
            };
            let r1: Option<usize> = if n == 0 {
                proof {
                    if all_branches[bi as int].range.1 is Some {
                        let en = all_branches[bi as int].range.1->0;
                        assert(spec_backward_index(csf, en as int) == spec_backward_index(
                            csf,
                            csf.len() - 1,
                        ));
                        assert(spec_backward_index(csf, -1) is None);
                    }
                }
                None
            } else {
                match all_branches[bi].range.1 {
                    Some(en) => {
                        let mut j = if en >= n {
                            n - 1
                        } else {
                            en
                        };
                        proof {
                            assert(spec_backward_index(csf, en as int) == spec_backward_index(
                                csf,
                                j as int,
                            ));
                        }
                        let mut res: Option<usize> = None;
                        let mut done = false;
                        while !done && res.is_none()
                            invariant
                                j < n,
                                n == csf.len(),
                                index_map@.len() == n,
                                forall|q: int|
                                    0 <= q < n ==> #[trigger] index_map@[q] == (
                                    if csf[q].branch_trace is Some {
                                        Some(spec_new_commit_index(csf, q) as usize)
                                    } else {
                                        None::<usize>
                                    }),
                                !done && res is None ==> spec_backward_index(csf, en as int)
                                    == spec_backward_index(csf, j as int),
                                res is Some ==> spec_backward_index(csf, en as int) == res,
                                done && res is None ==> spec_backward_index(csf, en as int)
                                    is None,
                            decreases j + (if res is None && !done {
                                2int
                            } else {
                                0int
                            }),
                        {
                            res = index_map[j];
                            if res.is_none() {
                                proof {
                                    assert(csf[j as int].branch_trace is None);
                                    assert(spec_backward_index(csf, j as int)
                                        == spec_backward_index(csf, j as int - 1));
                                }
                                if j == 0 {
                                    done = true;
                                    proof {
                                        assert(spec_backward_index(csf, -1) is None);
                                    }
                                } else {
                                    j -= 1;
                                }
                            }
                        }
                        res
                    },
                    None => None,
                }
            };
            let ghost pre_bs = all_branches@;
            set_branch_range(&mut all_branches, bi, (r0, r1));
            proof {
                assert(all_branches@[bi as int]@ =~= spec_remap_range(csf, bs4[bi as int]));
                assert forall|j: int| 0 <= j < nb && j != bi implies all_branches@[j]
                    == pre_bs[j] by {}
            }
            bi += 1;
        }
        // a dense oid-to-index map over the surviving commits
        let nf = filtered.len();
        let mut filtered_indices: HashMap<u64, usize> = HashMap::new();
        let mut fi: usize = 0;
        while fi < nf
            invariant
                fi <= nf,
                filtered@.len() == nf,
                filtered_indices@ == spec_commit_map(
                    filtered@.map_values(|c: CommitInfo| c@),
                    fi as int,
                ),
            decreases nf - fi,
        {
            filtered_indices.insert(filtered[fi].oid, fi);
            fi += 1;
        }
        proof {
            let pats = settings.merge_patterns.patterns@.map_values(|p: String| p@);
            let cat = spec_catalog(
                refs@.map_values(|x: RefData| x@),
                ds,
                tags@.map_values(|x: TagData| x@),
                m,
                settings.branches,
                settings.include_remote,
                pats,
            );
            let bs_cat = cat->Ok_0;
            crate::trace::lemma_assign_traces_bounded(cs1, bs_cat, m);
            let asg = crate::trace::spec_assign_branches(cs1, bs_cat, m);
            assert(forall|i2: int|
                0 <= i2 < filtered@.len() ==> ((#[trigger] filtered@[i2]@.branch_trace) is Some
                    && filtered@[i2]@.branch_trace->0 < all_branches@.len())) by {
                assert(csf == asg.0);
                assert(all_branches@.len() == asg.1.len());
                lemma_filter_commits_traced(csf, 0, asg.1.len() as int);
                assert(filtered@.map_values(|c: CommitInfo| c@) == spec_filter_commits(csf, 0));
                assert(forall|i2: int|
                    0 <= i2 < filtered@.len() ==> #[trigger] filtered@[i2]@ == spec_filter_commits(
                        csf,
                        0,
                    )[i2]);
            }
            assert(all_branches@.map_values(|b: BranchInfo| b@) =~= bs4.map_values(
                |b: BranchView| spec_remap_range(csf, b),
            ));
            assert(spec_build_graph(
                ds,
                refs@.map_values(|x: RefData| x@),
                tags@.map_values(|x: TagData| x@),
                *settings,
                settings.branch_order is ShortestFirst,
                match settings.branch_order {
                    BranchOrder::ShortestFirst(fwd) => fwd,
                    BranchOrder::LongestFirst(fwd) => fwd,
                },
            ) == Ok::<(Seq<CommitView>, Seq<BranchView>), Seq<char>>(
                (
                    filtered@.map_values(|c: CommitInfo| c@),
                    all_branches@.map_values(|b: BranchInfo| b@),
                ),
            ));
        }
        Ok(
            GitGraph {
                commits: filtered,
                indices: filtered_indices,
                all_branches,
                head,
            },
        )
    }
}

/// Every commit that survives filtering is on a branch, and its trace
/// stays below any bound that held before filtering.
proof fn lemma_filter_commits_traced(cs: Seq<CommitView>, i: int, n: int)
    requires
        forall|q: int|
            0 <= q < cs.len() && (#[trigger] cs[q].branch_trace) is Some ==> cs[q].branch_trace->0
                < n,
    ensures
        forall|k: int|
            0 <= k < spec_filter_commits(cs, i).len() ==> (#[trigger] spec_filter_commits(
                cs,
                i,
            )[k]).branch_trace is Some && spec_filter_commits(cs, i)[k].branch_trace->0 < n,
    decreases cs.len() - i,
{
    if 0 <= i < cs.len() {
        lemma_filter_commits_traced(cs, i + 1, n);
        assert forall|k: int|
            0 <= k < spec_filter_commits(cs, i).len() implies (#[trigger] spec_filter_commits(
            cs,
            i,
        )[k]).branch_trace is Some && spec_filter_commits(cs, i)[k].branch_trace->0 < n by {
            let hd = if cs[i].branch_trace is Some {
                seq![cs[i]]
            } else {
                Seq::<CommitView>::empty()
            };
            if k >= hd.len() {
                assert(spec_filter_commits(cs, i)[k] == spec_filter_commits(cs, i + 1)[k
                    - hd.len()]);
            }
        }
    }
}

/// Idempotence: the whole construction is a function of the walked commits,
/// refs, tags and settings alone, so re-running catalog extraction, tracing
/// and column assignment on an unchanged input yields identical commits
/// (hence branch ids and traces), ranges and columns.
pub proof fn lemma_construction_deterministic(
    ds: Seq<CommitDataView>,
    refs: Seq<RefView>,
    tags: Seq<TagView>,
    settings: Settings,
    shortest_first: bool,
    forward: bool,
    c1: Seq<CommitView>,
    b1: Seq<BranchView>,
    c2: Seq<CommitView>,
    b2: Seq<BranchView>,
)
    requires
        spec_build_graph(ds, refs, tags, settings, shortest_first, forward) == Ok::<_, Seq<char>>(
            (c1, b1),
        ),
        spec_build_graph(ds, refs, tags, settings, shortest_first, forward) == Ok::<_, Seq<char>>(
            (c2, b2),
        ),
    ensures
        c1 == c2,
        b1 == b2,
{
}

/// The surviving-commit count only grows with the index.
proof fn lemma_new_commit_index_mono(cs: Seq<CommitView>, a: int, b: int)
    requires
        a <= b,
    ensures
        spec_new_commit_index(cs, a) <= spec_new_commit_index(cs, b),
    decreases b - a,
{
    if a < b {
        lemma_new_commit_index_mono(cs, a, b - 1);
    }
}

/// New commit indices never run ahead of the old ones.
proof fn lemma_new_commit_index_le(cs: Seq<CommitView>, t: int)
    requires
        t >= 0,
    ensures
        spec_new_commit_index(cs, t) <= t,
    decreases t,
{
    if t > 0 {
        lemma_new_commit_index_le(cs, t - 1);
    }
}

/// The old index behind a position of the filtered commit list.
pub open spec fn spec_filter_source(cs: Seq<CommitView>, i: int, off: int) -> int
    decreases cs.len() - i,
{
    if i < 0 || i >= cs.len() {
        0
    } else if cs[i].branch_trace is Some {
        if off == 0 {
            i
        } else {
            spec_filter_source(cs, i + 1, off - 1)
        }
    } else {
        spec_filter_source(cs, i + 1, off)
    }
}

/// Every position of the filtered commit list holds the surviving commit
/// at its source index, placed exactly at that commit's new index.
proof fn lemma_filter_commits_source(cs: Seq<CommitView>, i: int, off: int)
    requires
        0 <= i <= cs.len(),
        0 <= off < spec_filter_commits(cs, i).len(),
    ensures
        ({
            let t = spec_filter_source(cs, i, off);
            &&& i <= t < cs.len()
            &&& cs[t].branch_trace is Some
            &&& off == spec_new_commit_index(cs, t) - spec_new_commit_index(cs, i)
            &&& spec_filter_commits(cs, i)[off] == cs[t]
        }),
    decreases cs.len() - i,
{
    let rest = spec_filter_commits(cs, i + 1);
    let hd = if cs[i].branch_trace is Some {
        seq![cs[i]]
    } else {
        Seq::<CommitView>::empty()
    };
    assert(spec_filter_commits(cs, i) == hd + rest);
    if cs[i].branch_trace is Some {
        if off == 0 {
            assert((hd + rest)[0] == cs[i]);
        } else {
            lemma_filter_commits_source(cs, i + 1, off - 1);
            assert((hd + rest)[off] == rest[off - 1]);
        }
    } else {
        lemma_filter_commits_source(cs, i + 1, off);
        assert((hd + rest)[off] == rest[off]);
    }
}

/// The first surviving commit at or after `s` sits no later than any
/// surviving commit at or after `s`.
proof fn lemma_forward_le(cs: Seq<CommitView>, s: int, k: int)
    requires
        0 <= s <= k < cs.len(),
        cs.len() <= usize::MAX,
        cs[k].branch_trace is Some,
    ensures
        ({
            let f = spec_forward_index(cs, s);
            f matches Some(v) && v as int <= spec_new_commit_index(cs, k)
        }),
    decreases k - s,
{
    lemma_new_commit_index_le(cs, s);
    lemma_new_commit_index_mono(cs, 0, s);
    if cs[s].branch_trace is Some {
        lemma_new_commit_index_mono(cs, s, k);
    } else {
        assert(s != k);
        lemma_forward_le(cs, s + 1, k);
    }
}

/// The last surviving commit at or before `e` sits no earlier than any
/// surviving commit at or before `e`.
proof fn lemma_backward_ge(cs: Seq<CommitView>, e: int, k: int)
    requires
        0 <= k <= e,
        k < cs.len(),
        cs.len() <= usize::MAX,
        cs[k].branch_trace is Some,
    ensures
        ({
            let f = spec_backward_index(cs, e);
            f matches Some(v) && v as int >= spec_new_commit_index(cs, k)
        }),
    decreases e - k,
{
    if e >= cs.len() {
        lemma_backward_ge(cs, cs.len() - 1, k);
    } else {
        lemma_new_commit_index_le(cs, e);
        lemma_new_commit_index_mono(cs, 0, e);
        if cs[e].branch_trace is Some {
            lemma_new_commit_index_mono(cs, k, e);
        } else {
            assert(e != k);
            lemma_backward_ge(cs, e - 1, k);
        }
    }
}

/// With pairwise-distinct commit ids, the oid map sends exactly each
/// walked commit's id to its position.
proof fn lemma_build_map_consistent(ds: Seq<CommitDataView>, i: int)
    requires
        0 <= i <= ds.len(),
        ds.len() <= usize::MAX,
        forall|a: int, b: int|
            #![trigger ds[a].oid, ds[b].oid]
            0 <= a < ds.len() && 0 <= b < ds.len() && a != b ==> ds[a].oid != ds[b].oid,
    ensures
        ({
            let m = spec_build_map(ds, i);
            &&& forall|j: int|
                0 <= j < i ==> m.contains_key(#[trigger] ds[j].oid) && m[ds[j].oid] == j
            &&& forall|o: u64|
                m.contains_key(o) ==> 0 <= #[trigger] m[o] < i && ds[m[o] as int].oid == o
        }),
    decreases i,
{
    if i > 0 {
        lemma_build_map_consistent(ds, i - 1);
        let m = spec_build_map(ds, i);
        assert forall|j: int|
            0 <= j < i implies m.contains_key(#[trigger] ds[j].oid) && m[ds[j].oid] == j by {
            if j < i - 1 {
                assert(ds[j].oid != ds[i - 1].oid);
            }
        }
    }
}

/// Range monotonicity at the finished graph: every surviving commit's
/// trace points at a surviving branch whose re-indexed active range
/// contains the commit's new index (each closed end bounds it).  The
/// catalog-shape hypotheses hold of every catalog by construction: every
/// candidate starts with an open range end, and its preliminary range
/// start never lies past its target commit.  Pairwise-distinct branch
/// names are required: with two lanes of one name, the same-name
/// continuation shrinks the owner's range over commits the owner keeps.
pub proof fn lemma_build_graph_claims_in_ranges(
    ds: Seq<CommitDataView>,
    refs: Seq<RefView>,
    tags: Seq<TagView>,
    settings: Settings,
    shortest_first: bool,
    forward: bool,
)
    requires
        ds.len() <= usize::MAX,
        forall|a: int, b: int|
            #![trigger ds[a].oid, ds[b].oid]
            0 <= a < ds.len() && 0 <= b < ds.len() && a != b ==> ds[a].oid != ds[b].oid,
        parents_topological(
            spec_initial_commits(ds),
            spec_build_map(ds, ds.len() as int),
        ),
        ({
            let m = spec_build_map(ds, ds.len() as int);
            let pats = settings.merge_patterns.patterns@.map_values(|p: String| p@);
            let cat = spec_catalog(
                refs,
                ds,
                tags,
                m,
                settings.branches,
                settings.include_remote,
                pats,
            );
            cat matches Ok(v) ==> (crate::trace::names_distinct(v) && v.len() <= usize::MAX)
        }),
    ensures
        ({
            let r = spec_build_graph(ds, refs, tags, settings, shortest_first, forward);
            r matches Ok(g) ==> forall|i: int|
                0 <= i < g.0.len() && (#[trigger] g.0[i].branch_trace) is Some ==> (
                g.0[i].branch_trace->0 < g.1.len() && (
                g.1[g.0[i].branch_trace->0 as int].range.0 matches Some(s) ==> s <= i) && (
                g.1[g.0[i].branch_trace->0 as int].range.1 matches Some(e) ==> i <= e))
        }),
{
    let n = ds.len() as int;
    let cs0 = spec_initial_commits(ds);
    let m = spec_build_map(ds, n);
    let cs1 = Seq::<CommitView>::new(ds.len(), |j: int| with_children(cs0[j], children_upto(cs0, m, j, n)));
    let pats = settings.merge_patterns.patterns@.map_values(|p: String| p@);
    let cat = spec_catalog(refs, ds, tags, m, settings.branches, settings.include_remote, pats);
    lemma_build_map_bounded(ds, n);
    lemma_build_map_consistent(ds, n);
    assert(indices_consistent(m, cs1)) by {
        assert forall|c: int| 0 <= c < cs1.len() implies m.contains_key(#[trigger] cs1[c].oid)
            && m[cs1[c].oid] == c by {
            assert(cs1[c].oid == ds[c].oid);
        }
        assert forall|o: u64| m.contains_key(o) implies cs1[#[trigger] m[o] as int].oid == o by {
            assert(cs1[m[o] as int].oid == ds[m[o] as int].oid);
        }
    }
    assert(parents_topological(cs1, m)) by {
        assert forall|i: int, p: int|
            0 <= i < cs1.len() && 0 <= p < 2 && (#[trigger] cs1[i].parent(p)) is Some
                && m.contains_key(cs1[i].parent(p)->0) implies m[cs1[i].parent(p)->0] > i by {
            assert(cs1[i].parent(p) == cs0[i].parent(p));
        }
    }
    assert(crate::trace::commits_fresh(cs1));
    assert forall|k: int|
        0 <= k < ds.len() && (#[trigger] ds[k].parent1) is Some && m.contains_key(
            ds[k].parent1->0,
        ) implies m[ds[k].parent1->0] > k by {
        assert(cs0[k].parent(1) == ds[k].parent1);
    }
    crate::catalog::lemma_catalog_ranges_ok(
        refs,
        ds,
        tags,
        m,
        settings.branches,
        settings.include_remote,
        pats,
    );
    match cat {
        Err(_) => {},
        Ok(bs_cat) => {
            assert(crate::catalog::catalog_ranges_ok(bs_cat, m));
            crate::trace::lemma_assign_claims_in_ranges(cs1, bs_cat, m);
            assert(crate::trace::traces_bounded(cs1, bs_cat.len() as int));
            crate::trace::lemma_assign_traces_bounded(cs1, bs_cat, m);
            crate::trace::lemma_assign_from_preserves(cs1, bs_cat, m, 0, bs_cat.len() as int);
            let asg = crate::trace::spec_assign_branches(cs1, bs_cat, m);
            assert(asg.0.len() == cs1.len());
            match spec_correct_forks_from(asg.0, asg.1, m, settings.branches, 0, asg.1.len() as int) {
                Err(_) => {},
                Ok(bs2) => {
                    crate::link::lemma_forks_preserve_ranges(
                        asg.0,
                        asg.1,
                        m,
                        settings.branches,
                        0,
                        asg.1.len() as int,
                    );
                    crate::link::lemma_links_preserve_ranges(asg.0, bs2, m);
                    let bs3 = spec_assign_sources_targets(asg.0, bs2, m);
                    crate::columns::lemma_columns_preserve_ranges(
                        asg.0,
                        bs3,
                        m,
                        settings.branches.order@.len() as int,
                        shortest_first,
                        forward,
                    );
                    let bs4 = spec_assign_columns(
                        asg.0,
                        bs3,
                        m,
                        settings.branches.order@.len() as int,
                        shortest_first,
                        forward,
                    );
                    let fc = spec_filter_commits(asg.0, 0);
                    let fb = bs4.map_values(|b: BranchView| spec_remap_range(asg.0, b));
                    assert forall|i: int|
                        0 <= i < fc.len() && (#[trigger] fc[i].branch_trace) is Some implies (
                    fc[i].branch_trace->0 < fb.len() && (
                    fb[fc[i].branch_trace->0 as int].range.0 matches Some(s2) ==> s2 <= i) && (
                    fb[fc[i].branch_trace->0 as int].range.1 matches Some(e2) ==> i <= e2)) by {
                        lemma_filter_commits_source(asg.0, 0, i);
                        let t = spec_filter_source(asg.0, 0, i);
                        assert(fc[i] == asg.0[t]);
                        assert(spec_new_commit_index(asg.0, 0) == 0);
                        assert(i == spec_new_commit_index(asg.0, t));
                        let b = fc[i].branch_trace->0 as int;
                        assert(asg.0[t].branch_trace->0 < asg.1.len());
                        assert(b < fb.len());
                        assert(fb[b] == spec_remap_range(asg.0, bs4[b]));
                        assert(bs4[b].range == asg.1[b].range);
                        assert((asg.1[b].range.0 matches Some(s3) ==> s3 <= t) && (
                        asg.1[b].range.1 matches Some(e3) ==> t <= e3));
                        match asg.1[b].range.0 {
                            Some(s3) => {
                                lemma_forward_le(asg.0, s3 as int, t);
                            },
                            None => {},
                        }
                        match asg.1[b].range.1 {
                            Some(e3) => {
                                lemma_backward_ge(asg.0, e3 as int, t);
                            },
                            None => {},
                        }
                    }
                    let r = spec_build_graph(ds, refs, tags, settings, shortest_first, forward);
                    match r {
                        Ok(g) => {
                            assert(g.0 == fc);
                            assert(g.1 == fb);
                            assert forall|i: int|
                                0 <= i < g.0.len() && (#[trigger] g.0[i].branch_trace) is Some
                                implies (g.0[i].branch_trace->0 < g.1.len() && (
                            g.1[g.0[i].branch_trace->0 as int].range.0 matches Some(s2) ==> s2
                                <= i) && (g.1[g.0[i].branch_trace->0 as int].range.1 matches Some(
                                e2,
                            ) ==> i <= e2)) by {
                                assert(fc[i].branch_trace is Some);
                            }
                        },
                        Err(_) => {},
                    }
                },
            }
        },
    }
}

} // verus!
