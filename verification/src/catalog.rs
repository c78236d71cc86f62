//! Branch catalog: enumerates real branches, branches derived from merge
//! summaries, and tags; assigns each candidate a persistence rank, an order
//! group and colors, and sorts the candidates for tracing.

use vstd::prelude::*;

use std::collections::HashMap;

use crate::colors::spec_terminal_color;
use crate::colors::to_terminal_color;
use crate::graph::BranchInfo;
use crate::graph::BranchView;
use crate::graph::BranchVis;
use crate::graph::BranchVisView;
use crate::graph::CommitData;
use crate::graph::CommitDataView;
use crate::graph::RefData;
use crate::graph::RefView;
use crate::graph::TagData;
use crate::graph::TagView;
use crate::matching::regex_match;
use crate::matching::pattern_matches;
use crate::settings::BranchSettings;
use crate::settings::Settings;
use crate::text::spec_parse_merge_summary;
use crate::text::parse_merge_summary;
use crate::text::spec_starts_with;
use crate::text::str_starts_with;

verus! {

broadcast use vstd::std_specs::hash::group_hash_axioms;

/// The settings shape the catalog relies on: non-empty color lists and a
/// persistence rule count that fits the `u8` rank (tags get one rank past
/// the last rule).
pub open spec fn catalog_wf(bs: BranchSettings) -> bool {
    &&& bs.colors_wf()
    &&& bs.persistence@.len() < 255
}

/// A branch name with a remote prefix stripped for matching purposes.
pub open spec fn spec_strip_origin(name: Seq<char>) -> Seq<char> {
    if spec_starts_with(name, "origin/"@) {
        name.skip("origin/"@.len() as int)
    } else {
        name
    }
}

/// Whether an ordering pattern applies to a branch name: it may match the
/// name with the remote prefix stripped, or the full name.
pub open spec fn spec_order_match(name: Seq<char>, pat: Seq<char>) -> bool {
    ||| spec_starts_with(name, "origin/"@) && regex_match(
        pat,
        name.skip("origin/"@.len() as int),
    )
    ||| regex_match(pat, name)
}

/// The position of the first ordering pattern from `i` on that applies to
/// `name`; `order.len()` when none does.
pub open spec fn spec_branch_order_from(name: Seq<char>, order: Seq<String>, i: int) -> int
    decreases order.len() - i,
{
    if i < 0 || i >= order.len() {
        order.len() as int
    } else if spec_order_match(name, order[i]@) {
        i
    } else {
        spec_branch_order_from(name, order, i + 1)
    }
}

/// The index of the first matching rule for a branch name, or the rule
/// count when no rule matches.
pub open spec fn spec_branch_order(name: Seq<char>, order: Seq<String>) -> int {
    spec_branch_order_from(name, order, 0)
}

/// Finds the index for a branch name from a list of patterns.
pub fn branch_order(name: &str, order: &Vec<String>) -> (r: usize)
    ensures
        r == spec_branch_order(name@, order@),
        r <= order@.len(),
{
    proof {
        reveal_strlit("origin/");
    }
    let has_origin = str_starts_with(name, "origin/");
    let len = name.unicode_len();
    let stripped: &str = if has_origin {
        name.substring_char(7, len)
    } else {
        name
    };
    proof {
        assert(stripped@ == spec_strip_origin(name@));
    }
    let n = order.len();
    let mut i: usize = 0;
    while i < n
        invariant
            i <= n,
            spec_branch_order(name@, order@) == spec_branch_order_from(name@, order@, i as int),
        decreases n - i,
    {
        if (has_origin && pattern_matches(order[i].as_str(), stripped)) || pattern_matches(
            order[i].as_str(),
            name,
        ) {
            return i;
        }
        i += 1;
    }
    n
}

/// The color that the ordered rules pick for a (stripped) branch name, from
/// rule `i` on: the first matching rule's list, cycled by `counter`; the
/// fallback list, cycled the same way, when no rule matches.
pub open spec fn spec_branch_color_from(
    stripped: Seq<char>,
    rules: Seq<(String, Vec<String>)>,
    unknown: Seq<String>,
    counter: int,
    i: int,
) -> Seq<char>
    decreases rules.len() - i,
{
    if i < 0 || i >= rules.len() {
        unknown[counter % unknown.len() as int]@
    } else if regex_match(rules[i].0@, stripped) {
        rules[i].1@[counter % rules[i].1@.len() as int]@
    } else {
        spec_branch_color_from(stripped, rules, unknown, counter, i + 1)
    }
}

/// The color for a branch name: remote prefix stripped, first matching rule
/// wins, fallback colors cycle deterministically by `counter`.
pub open spec fn spec_branch_color(
    name: Seq<char>,
    rules: Seq<(String, Vec<String>)>,
    unknown: Seq<String>,
    counter: int,
) -> Seq<char> {
    spec_branch_color_from(spec_strip_origin(name), rules, unknown, counter, 0)
}

/// Finds the color for a branch name.
pub fn branch_color(
    name: &str,
    rules: &Vec<(String, Vec<String>)>,
    unknown: &Vec<String>,
    counter: usize,
) -> (r: String)
    requires
        unknown@.len() > 0,
        forall|i: int| 0 <= i < rules@.len() ==> (#[trigger] rules@[i]).1@.len() > 0,
    ensures
        r@ == spec_branch_color(name@, rules@, unknown@, counter as int),
{
    proof {
        reveal_strlit("origin/");
    }
    let has_origin = str_starts_with(name, "origin/");
    let len = name.unicode_len();
    let stripped: &str = if has_origin {
        name.substring_char(7, len)
    } else {
        name
    };
    proof {
        assert(stripped@ == spec_strip_origin(name@));
    }
    let n = rules.len();
    let mut i: usize = 0;
    while i < n
        invariant
            i <= n,
            spec_branch_color(name@, rules@, unknown@, counter as int) == spec_branch_color_from(
                stripped@,
                rules@,
                unknown@,
                counter as int,
                i as int,
            ),
        decreases n - i,
    {
        let pair = &rules[i];
        if pattern_matches(pair.0.as_str(), stripped) {
            let l = pair.1.len();
            return pair.1[counter % l].clone();
        }
        i += 1;
    }
    let l = unknown.len();
    unknown[counter % l].clone()
}

/// The candidate branch built for one kept ref, or the color error raised
/// for it.  `counter` is the value after this ref's increment.
pub open spec fn spec_ref_branch(
    r: RefView,
    m: Map<u64, usize>,
    bs: BranchSettings,
    counter: int,
) -> Result<BranchView, Seq<char>> {
    let term_name = spec_branch_color(
        r.name,
        bs.terminal_colors@,
        bs.terminal_colors_unknown@,
        counter,
    );
    match spec_terminal_color(term_name) {
        None => Err("Color "@ + term_name + " not found"@),
        Some(tc) => Ok(
            BranchView {
                target: r.target,
                merge_target: None,
                source_branch: None,
                target_branch: None,
                name: r.name,
                persistence: spec_branch_order(r.name, bs.persistence@) as u8,
                is_remote: r.is_remote,
                is_merged: false,
                is_tag: false,
                visual: BranchVisView {
                    order_group: spec_branch_order(r.name, bs.order@) as usize,
                    target_order_group: None,
                    source_order_group: None,
                    term_color: tc,
                    svg_color: spec_branch_color(
                        r.name,
                        bs.svg_colors@,
                        bs.svg_colors_unknown@,
                        counter,
                    ),
                    column: None,
                },
                range: (
                    if m.contains_key(r.target) {
                        Some(m[r.target])
                    } else {
                        None
                    },
                    None,
                ),
            },
        ),
    }
}

/// Joins an already-produced prefix with the outcome of the rest of an
/// extraction pass.
pub open spec fn spec_join(
    prefix: Seq<BranchView>,
    rest: Result<(Seq<BranchView>, int), Seq<char>>,
) -> Result<(Seq<BranchView>, int), Seq<char>> {
    match rest {
        Err(e) => Err(e),
        Ok(pair) => Ok((prefix + pair.0, pair.1)),
    }
}

/// The branches extracted from the refs from position `i` on, with the
/// running color counter threaded through, or the first color error.
pub open spec fn spec_extract_actual_from(
    refs: Seq<RefView>,
    m: Map<u64, usize>,
    bs: BranchSettings,
    include_remote: bool,
    i: int,
    counter: int,
) -> Result<(Seq<BranchView>, int), Seq<char>>
    decreases refs.len() - i,
{
    if i < 0 || i >= refs.len() {
        Ok((Seq::<BranchView>::empty(), counter))
    } else if refs[i].is_remote && !include_remote {
        spec_extract_actual_from(refs, m, bs, include_remote, i + 1, counter)
    } else {
        match spec_ref_branch(refs[i], m, bs, counter + 1) {
            Err(e) => Err(e),
            Ok(b) => spec_join(
                seq![b],
                spec_extract_actual_from(refs, m, bs, include_remote, i + 1, counter + 1),
            ),
        }
    }
}

/// Extracts and processes the repository's real branches (local and, when
/// enabled, remote): each kept ref becomes a candidate branch with its
/// persistence rank, order group, colors and preliminary range end.
pub fn extract_actual_branches(
    refs: &Vec<RefData>,
    indices: &HashMap<u64, usize>,
    settings: &Settings,
    counter: &mut usize,
) -> (r: Result<Vec<BranchInfo>, String>)
    requires
        catalog_wf(settings.branches),
        *old(counter) + refs@.len() <= usize::MAX,
    ensures
        *final(counter) <= *old(counter) + refs@.len(),
        ({
            let spec = spec_extract_actual_from(
                refs@.map_values(|x: RefData| x@),
                indices@,
                settings.branches,
                settings.include_remote,
                0,
                *old(counter) as int,
            );
            match r {
                Ok(v) => spec == Ok::<_, Seq<char>>(
                    (v@.map_values(|b: BranchInfo| b@), *final(counter) as int),
                ),
                Err(e) => spec == Err::<(Seq<BranchView>, int), _>(e@),
            }
        }),
{
    let ghost rs = refs@.map_values(|x: RefData| x@);
    let ghost c0 = *counter as int;
    let ghost bs = settings.branches;
    let ghost inc = settings.include_remote;
    let mut out: Vec<BranchInfo> = Vec::new();
    let n = refs.len();
    let mut i: usize = 0;
    while i < n
        invariant
            i <= n,
            *counter as int <= c0 + i,
            c0 <= *counter as int,
            c0 + n <= usize::MAX,
            spec_extract_actual_from(rs, indices@, bs, inc, 0, c0) == spec_join(
                out@.map_values(|b: BranchInfo| b@),
                spec_extract_actual_from(rs, indices@, bs, inc, i as int, *counter as int),
            ),
        decreases n - i,
    {
        let rd = &refs[i];
        if !(rd.is_remote && !settings.include_remote) {
            *counter = *counter + 1;
            let term_name = branch_color(
                rd.name.as_str(),
                &settings.branches.terminal_colors,
                &settings.branches.terminal_colors_unknown,
                *counter,
            );
            let term_color = match to_terminal_color(term_name.as_str()) {
                Ok(c) => c,
                Err(e) => {
                    proof {
                        let sb = spec_ref_branch(rs[i as int], indices@, bs, *counter as int);
                        assert(sb == Err::<BranchView, Seq<char>>(e@));
                        assert(spec_extract_actual_from(
                            rs,
                            indices@,
                            bs,
                            inc,
                            i as int,
                            *counter as int - 1,
                        ) == Err::<(Seq<BranchView>, int), Seq<char>>(e@));
                    }
                    return Err(e);
                },
            };
            let svg_color = branch_color(
                rd.name.as_str(),
                &settings.branches.svg_colors,
                &settings.branches.svg_colors_unknown,
                *counter,
            );
            let persistence_idx = branch_order(rd.name.as_str(), &settings.branches.persistence);
            let persistence = persistence_idx as u8;
            let pos = branch_order(rd.name.as_str(), &settings.branches.order);
            let end_index = match indices.get(&rd.target) {
                Some(idx) => Some(*idx),
                None => None,
            };
            let vis = BranchVis::new(pos, term_color, svg_color);
            let b = BranchInfo::new(
                rd.target,
                None,
                rd.name.clone(),
                persistence,
                rd.is_remote,
                false,
                false,
                vis,
                end_index,
            );
            proof {
                let c = *counter as int;
                let sb = spec_ref_branch(rs[i as int], indices@, bs, c);
                assert(sb is Ok && b@ =~= sb->Ok_0);
                let prev = out@.map_values(|x: BranchInfo| x@);
                let rest = spec_extract_actual_from(rs, indices@, bs, inc, i as int + 1, c);
                assert(spec_extract_actual_from(rs, indices@, bs, inc, i as int, c - 1)
                    == spec_join(seq![b@], rest));
                assert(spec_join(prev, spec_join(seq![b@], rest)) == spec_join(
                    prev.push(b@),
                    rest,
                )) by {
                    match rest {
                        Err(e) => {},
                        Ok(pair) => {
                            assert(prev + (seq![b@] + pair.0) =~= prev.push(b@) + pair.0);
                        },
                    }
                }
                assert(prev.push(b@) =~= out@.push(b).map_values(|x: BranchInfo| x@));
            }
            out.push(b);
        } else {
            proof {
                assert(spec_extract_actual_from(rs, indices@, bs, inc, i as int, *counter as int)
                    == spec_extract_actual_from(
                    rs,
                    indices@,
                    bs,
                    inc,
                    i as int + 1,
                    *counter as int,
                ));
            }
        }
        i += 1;
    }
    Ok(out)
}

/// The candidate branch derived from the merge commit at index `idx`, or
/// the color error raised for it.  `counter` is the value after this
/// commit's increment.
pub open spec fn spec_merge_branch(
    idx: int,
    c: CommitDataView,
    bs: BranchSettings,
    pats: Seq<Seq<char>>,
    counter: int,
) -> Result<BranchView, Seq<char>> {
    let name = match spec_parse_merge_summary(pats, c.summary->0) {
        Some(n) => n,
        None => "unknown"@,
    };
    let term_name = spec_branch_color(name, bs.terminal_colors@, bs.terminal_colors_unknown@, counter);
    match spec_terminal_color(term_name) {
        None => Err("Color "@ + term_name + " not found"@),
        Some(tc) => Ok(
            BranchView {
                target: c.parent1->0,
                merge_target: Some(c.oid),
                source_branch: None,
                target_branch: None,
                name: name,
                persistence: spec_branch_order(name, bs.persistence@) as u8,
                is_remote: false,
                is_merged: true,
                is_tag: false,
                visual: BranchVisView {
                    order_group: spec_branch_order(name, bs.order@) as usize,
                    target_order_group: None,
                    source_order_group: None,
                    term_color: tc,
                    svg_color: spec_branch_color(name, bs.svg_colors@, bs.svg_colors_unknown@, counter),
                    column: None,
                },
                range: (Some((idx + 1) as usize), None),
            },
        ),
    }
}

/// The branches derived from the merge commits from position `i` on, with
/// the running color counter threaded through, or the first color error.
pub open spec fn spec_extract_merges_from(
    cs: Seq<CommitDataView>,
    bs: BranchSettings,
    pats: Seq<Seq<char>>,
    i: int,
    counter: int,
) -> Result<(Seq<BranchView>, int), Seq<char>>
    decreases cs.len() - i,
{
    if i < 0 || i >= cs.len() {
        Ok((Seq::<BranchView>::empty(), counter))
    } else if !(cs[i].parent1 is Some && cs[i].summary is Some) {
        spec_extract_merges_from(cs, bs, pats, i + 1, counter)
    } else {
        match spec_merge_branch(i, cs[i], bs, pats, counter + 1) {
            Err(e) => Err(e),
            Ok(b) => spec_join(seq![b], spec_extract_merges_from(cs, bs, pats, i + 1, counter + 1)),
        }
    }
}

/// Derives a candidate branch from every merge commit that has a summary:
/// the ordered merge patterns name the merged-in branch ("unknown" when none
/// matches), the branch's target is the merge's second parent, and its
/// preliminary range ends one position past the merge commit.
pub fn extract_merge_branches(
    commits: &Vec<CommitData>,
    settings: &Settings,
    counter: &mut usize,
) -> (r: Result<Vec<BranchInfo>, String>)
    requires
        catalog_wf(settings.branches),
        *old(counter) + commits@.len() <= usize::MAX,
    ensures
        *final(counter) <= *old(counter) + commits@.len(),
        ({
            let spec = spec_extract_merges_from(
                commits@.map_values(|x: CommitData| x@),
                settings.branches,
                settings.merge_patterns.patterns@.map_values(|p: String| p@),
                0,
                *old(counter) as int,
            );
            match r {
                Ok(v) => spec == Ok::<_, Seq<char>>(
                    (v@.map_values(|b: BranchInfo| b@), *final(counter) as int),
                ),
                Err(e) => spec == Err::<(Seq<BranchView>, int), _>(e@),
            }
        }),
{
    let ghost cs = commits@.map_values(|x: CommitData| x@);
    let ghost c0 = *counter as int;
    let ghost bs = settings.branches;
    let ghost pats = settings.merge_patterns.patterns@.map_values(|p: String| p@);
    let mut out: Vec<BranchInfo> = Vec::new();
    let n = commits.len();
    let mut i: usize = 0;
    while i < n
        invariant
            i <= n,
            *counter as int <= c0 + i,
            c0 <= *counter as int,
            c0 + n <= usize::MAX,
            spec_extract_merges_from(cs, bs, pats, 0, c0) == spec_join(
                out@.map_values(|b: BranchInfo| b@),
                spec_extract_merges_from(cs, bs, pats, i as int, *counter as int),
            ),
        decreases n - i,
    {
        let cd = &commits[i];
        let is_merge = cd.parents.1.is_some();
        if is_merge && cd.summary.is_some() {
            *counter = *counter + 1;
            let summary: &str = match &cd.summary {
                Some(su) => su.as_str(),
                None => "",
            };
            let branch_name = match parse_merge_summary(summary, &settings.merge_patterns) {
                Some(nm) => nm,
                None => String::from_str("unknown"),
            };
            let ghost sname = match spec_parse_merge_summary(pats, cs[i as int].summary->0) {
                Some(nm) => nm,
                None => "unknown"@,
            };
            proof {
                assert(branch_name@ == sname);
            }
            let term_name = branch_color(
                branch_name.as_str(),
                &settings.branches.terminal_colors,
                &settings.branches.terminal_colors_unknown,
                *counter,
            );
            let term_color = match to_terminal_color(term_name.as_str()) {
                Ok(c) => c,
                Err(e) => {
                    proof {
                        assert(spec_merge_branch(i as int, cs[i as int], bs, pats, *counter as int)
                            == Err::<BranchView, Seq<char>>(e@));
                        assert(spec_extract_merges_from(cs, bs, pats, i as int, *counter as int - 1)
                            == Err::<(Seq<BranchView>, int), Seq<char>>(e@));
                    }
                    return Err(e);
                },
            };
            let svg_color = branch_color(
                branch_name.as_str(),
                &settings.branches.svg_colors,
                &settings.branches.svg_colors_unknown,
                *counter,
            );
            let persistence_idx = branch_order(branch_name.as_str(), &settings.branches.persistence);
            let persistence = persistence_idx as u8;
            let pos = branch_order(branch_name.as_str(), &settings.branches.order);
            let parent_oid = cd.parents.1.unwrap();
            let vis = BranchVis::new(pos, term_color, svg_color);
            let b = BranchInfo::new(
                parent_oid,
                Some(cd.oid),
                branch_name,
                persistence,
                false,
                true,
                false,
                vis,
                Some(i + 1),
            );
            proof {
                let c = *counter as int;
                let sb = spec_merge_branch(i as int, cs[i as int], bs, pats, c);
                assert(sb is Ok && b@ =~= sb->Ok_0);
                let prev = out@.map_values(|x: BranchInfo| x@);
                let rest = spec_extract_merges_from(cs, bs, pats, i as int + 1, c);
                assert(spec_extract_merges_from(cs, bs, pats, i as int, c - 1) == spec_join(
                    seq![b@],
                    rest,
                ));
                assert(spec_join(prev, spec_join(seq![b@], rest)) == spec_join(
                    prev.push(b@),
                    rest,
                )) by {
                    match rest {
                        Err(e) => {},
                        Ok(pair) => {
                            assert(prev + (seq![b@] + pair.0) =~= prev.push(b@) + pair.0);
                        },
                    }
                }
                assert(prev.push(b@) =~= out@.push(b).map_values(|x: BranchInfo| x@));
            }
            out.push(b);
        } else {
            proof {
                assert(spec_extract_merges_from(cs, bs, pats, i as int, *counter as int)
                    == spec_extract_merges_from(cs, bs, pats, i as int + 1, *counter as int));
            }
        }
        i += 1;
    }
    Ok(out)
}

/// The tag-branch built for one tag whose target is in the walked window,
/// or the color error raised for it.
pub open spec fn spec_tag_branch(
    t: TagView,
    m: Map<u64, usize>,
    bs: BranchSettings,
    counter: int,
) -> Result<BranchView, Seq<char>> {
    let term_name = spec_branch_color(t.name, bs.terminal_colors@, bs.terminal_colors_unknown@, counter);
    match spec_terminal_color(term_name) {
        None => Err("Color "@ + term_name + " not found"@),
        Some(tc) => Ok(
            BranchView {
                target: t.target,
                merge_target: None,
                source_branch: None,
                target_branch: None,
                name: t.name,
                persistence: (bs.persistence@.len() + 1) as u8,
                is_remote: false,
                is_merged: false,
                is_tag: true,
                visual: BranchVisView {
                    order_group: spec_branch_order(t.name, bs.order@) as usize,
                    target_order_group: None,
                    source_order_group: None,
                    term_color: tc,
                    svg_color: spec_branch_color(t.name, bs.svg_colors@, bs.svg_colors_unknown@, counter),
                    column: None,
                },
                range: (Some(m[t.target]), None),
            },
        ),
    }
}

/// The tag-branches from position `i` on, with the running color counter
/// threaded through, or the first color error.  Tags whose target lies
/// outside the walked window are passed over.
pub open spec fn spec_extract_tags_from(
    tags: Seq<TagView>,
    m: Map<u64, usize>,
    bs: BranchSettings,
    i: int,
    counter: int,
) -> Result<(Seq<BranchView>, int), Seq<char>>
    decreases tags.len() - i,
{
    if i < 0 || i >= tags.len() {
        Ok((Seq::<BranchView>::empty(), counter))
    } else if !m.contains_key(tags[i].target) {
        spec_extract_tags_from(tags, m, bs, i + 1, counter)
    } else {
        match spec_tag_branch(tags[i], m, bs, counter + 1) {
            Err(e) => Err(e),
            Ok(b) => spec_join(seq![b], spec_extract_tags_from(tags, m, bs, i + 1, counter + 1)),
        }
    }
}

/// Extracts tags and treats them as branches: a tag whose resolved target
/// is in the walked window becomes a candidate with the highest (most
/// transient) persistence rank.
pub fn extract_tags_as_branches(
    tags: &Vec<TagData>,
    indices: &HashMap<u64, usize>,
    settings: &Settings,
    counter: &mut usize,
) -> (r: Result<Vec<BranchInfo>, String>)
    requires
        catalog_wf(settings.branches),
        *old(counter) + tags@.len() <= usize::MAX,
    ensures
        *final(counter) <= *old(counter) + tags@.len(),
        ({
            let spec = spec_extract_tags_from(
                tags@.map_values(|x: TagData| x@),
                indices@,
                settings.branches,
                0,
                *old(counter) as int,
            );
            match r {
                Ok(v) => spec == Ok::<_, Seq<char>>(
                    (v@.map_values(|b: BranchInfo| b@), *final(counter) as int),
                ),
                Err(e) => spec == Err::<(Seq<BranchView>, int), _>(e@),
            }
        }),
{
    let ghost ts = tags@.map_values(|x: TagData| x@);
    let ghost c0 = *counter as int;
    let ghost bs = settings.branches;
    let mut out: Vec<BranchInfo> = Vec::new();
    let n = tags.len();
    let mut i: usize = 0;
    while i < n
        invariant
            i <= n,
            *counter as int <= c0 + i,
            c0 <= *counter as int,
            c0 + n <= usize::MAX,
            spec_extract_tags_from(ts, indices@, bs, 0, c0) == spec_join(
                out@.map_values(|b: BranchInfo| b@),
                spec_extract_tags_from(ts, indices@, bs, i as int, *counter as int),
            ),
        decreases n - i,
    {
        let td = &tags[i];
        let target_index = match indices.get(&td.target) {
            Some(idx) => Some(*idx),
            None => None,
        };
        if let Some(target_index) = target_index {
            *counter = *counter + 1;
            let term_name = branch_color(
                td.name.as_str(),
                &settings.branches.terminal_colors,
                &settings.branches.terminal_colors_unknown,
                *counter,
            );
            let term_color = match to_terminal_color(term_name.as_str()) {
                Ok(c) => c,
                Err(e) => {
                    proof {
                        assert(spec_tag_branch(ts[i as int], indices@, bs, *counter as int)
                            == Err::<BranchView, Seq<char>>(e@));
                        assert(spec_extract_tags_from(ts, indices@, bs, i as int, *counter as int - 1)
                            == Err::<(Seq<BranchView>, int), Seq<char>>(e@));
                    }
                    return Err(e);
                },
            };
            let svg_color = branch_color(
                td.name.as_str(),
                &settings.branches.svg_colors,
                &settings.branches.svg_colors_unknown,
                *counter,
            );
            let pos = branch_order(td.name.as_str(), &settings.branches.order);
            let persistence = settings.branches.persistence.len() as u8 + 1;
            let vis = BranchVis::new(pos, term_color, svg_color);
            let b = BranchInfo::new(
                td.target,
                None,
                td.name.clone(),
                persistence,
                false,
                false,
                true,
                vis,
                Some(target_index),
            );
            proof {
                let c = *counter as int;
                let sb = spec_tag_branch(ts[i as int], indices@, bs, c);
                assert(sb is Ok && b@ =~= sb->Ok_0);
                let prev = out@.map_values(|x: BranchInfo| x@);
                let rest = spec_extract_tags_from(ts, indices@, bs, i as int + 1, c);
                assert(spec_extract_tags_from(ts, indices@, bs, i as int, c - 1) == spec_join(
                    seq![b@],
                    rest,
                ));
                assert(spec_join(prev, spec_join(seq![b@], rest)) == spec_join(
                    prev.push(b@),
                    rest,
                )) by {
                    match rest {
                        Err(e) => {},
                        Ok(pair) => {
                            assert(prev + (seq![b@] + pair.0) =~= prev.push(b@) + pair.0);
                        },
                    }
                }
                assert(prev.push(b@) =~= out@.push(b).map_values(|x: BranchInfo| x@));
            }
            out.push(b);
        } else {
            proof {
                assert(spec_extract_tags_from(ts, indices@, bs, i as int, *counter as int)
                    == spec_extract_tags_from(ts, indices@, bs, i as int + 1, *counter as int));
            }
        }
        i += 1;
    }
    Ok(out)
}

/// The catalog's processing order: lower persistence rank first, and within
/// one rank real branches before merge-derived ones.
pub open spec fn spec_branch_le(a: BranchView, b: BranchView) -> bool {
    ||| a.persistence < b.persistence
    ||| (a.persistence == b.persistence && (!a.is_merged || b.is_merged))
}

/// Stable insertion of `b` after every element that does not come after it.
pub open spec fn spec_insert_branch(b: BranchView, s: Seq<BranchView>) -> Seq<BranchView>
    decreases s.len(),
{
    if s.len() == 0 {
        seq![b]
    } else if spec_branch_le(s.last(), b) {
        s.push(b)
    } else {
        spec_insert_branch(b, s.drop_last()).push(s.last())
    }
}

/// Stable insertion sort of the candidate branches by `spec_branch_le`.
pub open spec fn spec_sort_branches(s: Seq<BranchView>) -> Seq<BranchView>
    decreases s.len(),
{
    if s.len() == 0 {
        Seq::<BranchView>::empty()
    } else {
        spec_insert_branch(s.last(), spec_sort_branches(s.drop_last()))
    }
}

/// Decides the processing order of two candidate branches.
fn branch_le(a: &BranchInfo, b: &BranchInfo) -> (r: bool)
    ensures
        r == spec_branch_le(a@, b@),
{
    a.persistence < b.persistence || (a.persistence == b.persistence && (!a.is_merged
        || b.is_merged))
}

/// An inserted element lands exactly at the first position (from the back)
/// whose predecessor does not come after it.
proof fn lemma_insert_branch_at(b: BranchView, s: Seq<BranchView>, j: int)
    requires
        0 <= j <= s.len(),
        forall|k: int| j <= k < s.len() ==> !spec_branch_le(#[trigger] s[k], b),
        j > 0 ==> spec_branch_le(s[j - 1], b),
    ensures
        spec_insert_branch(b, s) == s.take(j) + seq![b] + s.skip(j),
    decreases s.len(),
{
    if s.len() == 0 {
        assert(spec_insert_branch(b, s) =~= s.take(j) + seq![b] + s.skip(j));
    } else if j == s.len() {
        assert(spec_branch_le(s.last(), b));
        assert(spec_insert_branch(b, s) == s.push(b));
        assert(s.push(b) =~= s.take(j) + seq![b] + s.skip(j));
    } else {
        assert(!spec_branch_le(s[s.len() - 1], b));
        let dl = s.drop_last();
        assert(forall|k: int| j <= k < dl.len() ==> !spec_branch_le(#[trigger] dl[k], b));
        lemma_insert_branch_at(b, dl, j);
        assert(spec_insert_branch(b, s) == spec_insert_branch(b, dl).push(s.last()));
        assert(spec_insert_branch(b, dl).push(s.last()) =~= s.take(j) + seq![b] + s.skip(j));
    }
}

/// Sorts the candidate branches stably by `(persistence, is_merged)`, so
/// that long-lived branches trace first, and within one rank real branches
/// trace before merge-derived ones.
pub fn sort_branches(branches: Vec<BranchInfo>) -> (r: Vec<BranchInfo>)
    ensures
        r@.map_values(|b: BranchInfo| b@) == spec_sort_branches(
            branches@.map_values(|b: BranchInfo| b@),
        ),
{
    let ghost input = branches@.map_values(|b: BranchInfo| b@);
    let mut rest = branches;
    let mut out: Vec<BranchInfo> = Vec::new();
    let ghost mut done: int = 0;
    while rest.len() > 0
        invariant
            done == input.len() - rest.len(),
            0 <= done <= input.len(),
            rest@.map_values(|b: BranchInfo| b@) =~= input.skip(done),
            out@.map_values(|b: BranchInfo| b@) == spec_sort_branches(input.take(done)),
        decreases rest.len(),
    {
        let ghost pre_rest = rest@;
        let b = rest.remove(0);
        proof {
            assert(pre_rest.map_values(|x: BranchInfo| x@)[0] == input.skip(done)[0]);
            assert(b@ == input[done]);
            assert(rest@ =~= pre_rest.remove(0));
            assert forall|k: int| 0 <= k < rest@.len() implies (#[trigger] rest@[k])@
                == input.skip(done + 1)[k] by {
                assert(rest@[k] == pre_rest[k + 1]);
                assert(pre_rest.map_values(|x: BranchInfo| x@)[k + 1] == input.skip(done)[k + 1]);
            }
            assert(rest@.map_values(|x: BranchInfo| x@) =~= input.skip(done + 1));
        }
        let mut j = out.len();
        while j > 0 && !branch_le(&out[j - 1], &b)
            invariant
                0 <= j <= out.len(),
                forall|k: int|
                    j <= k < out@.len() ==> !spec_branch_le((#[trigger] out@[k])@, b@),
            decreases j,
        {
            j -= 1;
        }
        proof {
            let s = out@.map_values(|x: BranchInfo| x@);
            assert(forall|k: int| j <= k < s.len() ==> !spec_branch_le(#[trigger] s[k], b@));
            lemma_insert_branch_at(b@, s, j as int);
            assert(input.take(done + 1).drop_last() =~= input.take(done));
            assert(input.take(done + 1).last() == input[done]);
        }
        let ghost pre = out@;
        out.insert(j, b);
        proof {
            let s = pre.map_values(|x: BranchInfo| x@);
            assert(out@.map_values(|x: BranchInfo| x@) =~= s.take(j as int) + seq![b@] + s.skip(
                j as int,
            ));
            done = done + 1;
        }
    }
    proof {
        assert(input.take(done) =~= input);
    }
    out
}

/// The whole catalog: real branches, merge-derived branches and tags, in
/// that extraction order, sorted for tracing; or the first color error.
pub open spec fn spec_catalog(
    refs: Seq<RefView>,
    cs: Seq<CommitDataView>,
    tags: Seq<TagView>,
    m: Map<u64, usize>,
    bs: BranchSettings,
    include_remote: bool,
    pats: Seq<Seq<char>>,
) -> Result<Seq<BranchView>, Seq<char>> {
    match spec_extract_actual_from(refs, m, bs, include_remote, 0, 0) {
        Err(e) => Err(e),
        Ok(actual) => match spec_extract_merges_from(cs, bs, pats, 0, actual.1) {
            Err(e) => Err(e),
            Ok(merges) => match spec_extract_tags_from(tags, m, bs, 0, merges.1) {
                Err(e) => Err(e),
                Ok(tagged) => Ok(spec_sort_branches(actual.0 + merges.0 + tagged.0)),
            },
        },
    }
}

/// Extracts all candidate branches (real, derived from merge summaries, and
/// tags), assigns their basic properties, and sorts them by persistence
/// rank with real branches ahead of derived ones at equal rank.
pub fn extract_branches(
    refs: &Vec<RefData>,
    commits: &Vec<CommitData>,
    tags: &Vec<TagData>,
    indices: &HashMap<u64, usize>,
    settings: &Settings,
) -> (r: Result<Vec<BranchInfo>, String>)
    requires
        catalog_wf(settings.branches),
        refs@.len() + commits@.len() + tags@.len() <= usize::MAX,
    ensures
        ({
            let spec = spec_catalog(
                refs@.map_values(|x: RefData| x@),
                commits@.map_values(|x: CommitData| x@),
                tags@.map_values(|x: TagData| x@),
                indices@,
                settings.branches,
                settings.include_remote,
                settings.merge_patterns.patterns@.map_values(|p: String| p@),
            );
            match r {
                Ok(v) => spec == Ok::<_, Seq<char>>(v@.map_values(|b: BranchInfo| b@)),
                Err(e) => spec == Err::<Seq<BranchView>, _>(e@),
            }
        }),
{
    let mut counter: usize = 0;
    let mut all_branches = match extract_actual_branches(refs, indices, settings, &mut counter) {
        Ok(v) => v,
        Err(e) => {
            return Err(e);
        },
    };
    let mut merge_branches = match extract_merge_branches(commits, settings, &mut counter) {
        Ok(v) => v,
        Err(e) => {
            return Err(e);
        },
    };
    let mut tag_branches = match extract_tags_as_branches(tags, indices, settings, &mut counter) {
        Ok(v) => v,
        Err(e) => {
            return Err(e);
        },
    };
    let ghost va = all_branches@.map_values(|b: BranchInfo| b@);
    let ghost vm = merge_branches@.map_values(|b: BranchInfo| b@);
    let ghost vt = tag_branches@.map_values(|b: BranchInfo| b@);
    all_branches.append(&mut merge_branches);
    all_branches.append(&mut tag_branches);
    proof {
        assert(all_branches@.map_values(|b: BranchInfo| b@) =~= va + vm + vt);
    }
    Ok(sort_branches(all_branches))
}

/// Whether every branch of `s` is still without a column.
pub open spec fn branches_columns_none(s: Seq<BranchView>) -> bool {
    forall|j: int| 0 <= j < s.len() ==> (#[trigger] s[j]).visual.column is None
}

proof fn lemma_extract_actual_columns(
    refs: Seq<RefView>,
    m: Map<u64, usize>,
    bs: BranchSettings,
    inc: bool,
    i: int,
    counter: int,
)
    ensures
        spec_extract_actual_from(refs, m, bs, inc, i, counter) matches Ok(p)
            ==> branches_columns_none(p.0),
    decreases refs.len() - i,
{
    if 0 <= i < refs.len() {
        lemma_extract_actual_columns(refs, m, bs, inc, i + 1, counter);
        lemma_extract_actual_columns(refs, m, bs, inc, i + 1, counter + 1);
    }
}

proof fn lemma_extract_merges_columns(
    cs: Seq<CommitDataView>,
    bs: BranchSettings,
    pats: Seq<Seq<char>>,
    i: int,
    counter: int,
)
    ensures
        spec_extract_merges_from(cs, bs, pats, i, counter) matches Ok(p)
            ==> branches_columns_none(p.0),
    decreases cs.len() - i,
{
    if 0 <= i < cs.len() {
        lemma_extract_merges_columns(cs, bs, pats, i + 1, counter);
        lemma_extract_merges_columns(cs, bs, pats, i + 1, counter + 1);
    }
}

proof fn lemma_extract_tags_columns(
    tags: Seq<TagView>,
    m: Map<u64, usize>,
    bs: BranchSettings,
    i: int,
    counter: int,
)
    ensures
        spec_extract_tags_from(tags, m, bs, i, counter) matches Ok(p)
            ==> branches_columns_none(p.0),
    decreases tags.len() - i,
{
    if 0 <= i < tags.len() {
        lemma_extract_tags_columns(tags, m, bs, i + 1, counter);
        lemma_extract_tags_columns(tags, m, bs, i + 1, counter + 1);
    }
}

proof fn lemma_insert_branch_columns(b: BranchView, s: Seq<BranchView>)
    requires
        branches_columns_none(s),
        b.visual.column is None,
    ensures
        branches_columns_none(spec_insert_branch(b, s)),
    decreases s.len(),
{
    if s.len() > 0 && !spec_branch_le(s.last(), b) {
        assert(branches_columns_none(s.drop_last()));
        lemma_insert_branch_columns(b, s.drop_last());
        let r = spec_insert_branch(b, s);
        assert forall|j: int| 0 <= j < r.len() implies (#[trigger] r[j]).visual.column
            is None by {
            if j < r.len() - 1 {
                assert(r[j] == spec_insert_branch(b, s.drop_last())[j]);
            } else {
                assert(r[j] == s.last());
                assert(s[s.len() - 1] == s.last());
            }
        }
    } else if s.len() > 0 {
        let r = s.push(b);
        assert forall|j: int| 0 <= j < r.len() implies (#[trigger] r[j]).visual.column
            is None by {
            if j < s.len() {
                assert(r[j] == s[j]);
            }
        }
    }
}

proof fn lemma_sort_branches_columns(s: Seq<BranchView>)
    requires
        branches_columns_none(s),
    ensures
        branches_columns_none(spec_sort_branches(s)),
    decreases s.len(),
{
    if s.len() > 0 {
        assert(branches_columns_none(s.drop_last()));
        lemma_sort_branches_columns(s.drop_last());
        assert(s[s.len() - 1] == s.last());
        lemma_insert_branch_columns(s.last(), spec_sort_branches(s.drop_last()));
    }
}

/// The catalog hands every candidate out without a column; columns are
/// assigned only by the column assigner.
pub proof fn lemma_catalog_columns_none(
    refs: Seq<RefView>,
    cs: Seq<CommitDataView>,
    tags: Seq<TagView>,
    m: Map<u64, usize>,
    bs: BranchSettings,
    include_remote: bool,
    pats: Seq<Seq<char>>,
)
    ensures
        spec_catalog(refs, cs, tags, m, bs, include_remote, pats) matches Ok(v)
            ==> branches_columns_none(v),
{
    lemma_extract_actual_columns(refs, m, bs, include_remote, 0, 0);
    match spec_extract_actual_from(refs, m, bs, include_remote, 0, 0) {
        Err(_) => {},
        Ok(actual) => {
            lemma_extract_merges_columns(cs, bs, pats, 0, actual.1);
            match spec_extract_merges_from(cs, bs, pats, 0, actual.1) {
                Err(_) => {},
                Ok(merges) => {
                    lemma_extract_tags_columns(tags, m, bs, 0, merges.1);
                    match spec_extract_tags_from(tags, m, bs, 0, merges.1) {
                        Err(_) => {},
                        Ok(tagged) => {
                            assert(branches_columns_none(actual.0 + merges.0 + tagged.0));
                            lemma_sort_branches_columns(actual.0 + merges.0 + tagged.0);
                        },
                    }
                },
            }
        },
    }
}

/// Every catalog candidate starts with an open range end, and a range
/// start that never lies past its target commit.
pub open spec fn catalog_ranges_ok(bs: Seq<BranchView>, m: Map<u64, usize>) -> bool {
    forall|b: int|
        0 <= b < bs.len() ==> (#[trigger] bs[b]).range.1 is None && (m.contains_key(bs[b].target)
            ==> (bs[b].range.0 matches Some(v) && v <= m[bs[b].target]))
}

proof fn lemma_extract_actual_shape(
    refs: Seq<RefView>,
    m: Map<u64, usize>,
    bs: BranchSettings,
    inc: bool,
    i: int,
    counter: int,
)
    ensures
        spec_extract_actual_from(refs, m, bs, inc, i, counter) matches Ok(p) ==> catalog_ranges_ok(
            p.0,
            m,
        ),
    decreases refs.len() - i,
{
    if 0 <= i < refs.len() {
        lemma_extract_actual_shape(refs, m, bs, inc, i + 1, counter);
        lemma_extract_actual_shape(refs, m, bs, inc, i + 1, counter + 1);
    }
}

proof fn lemma_extract_merges_shape(
    cs: Seq<CommitDataView>,
    bs: BranchSettings,
    pats: Seq<Seq<char>>,
    m: Map<u64, usize>,
    i: int,
    counter: int,
)
    requires
        cs.len() <= usize::MAX,
        forall|k: int|
            0 <= k < cs.len() && (#[trigger] cs[k].parent1) is Some && m.contains_key(
                cs[k].parent1->0,
            ) ==> m[cs[k].parent1->0] > k,
    ensures
        spec_extract_merges_from(cs, bs, pats, i, counter) matches Ok(p) ==> catalog_ranges_ok(
            p.0,
            m,
        ),
    decreases cs.len() - i,
{
    if 0 <= i < cs.len() {
        lemma_extract_merges_shape(cs, bs, pats, m, i + 1, counter);
        lemma_extract_merges_shape(cs, bs, pats, m, i + 1, counter + 1);
    }
}

proof fn lemma_extract_tags_shape(
    tags: Seq<TagView>,
    m: Map<u64, usize>,
    bs: BranchSettings,
    i: int,
    counter: int,
)
    ensures
        spec_extract_tags_from(tags, m, bs, i, counter) matches Ok(p) ==> catalog_ranges_ok(
            p.0,
            m,
        ),
    decreases tags.len() - i,
{
    if 0 <= i < tags.len() {
        lemma_extract_tags_shape(tags, m, bs, i + 1, counter);
        lemma_extract_tags_shape(tags, m, bs, i + 1, counter + 1);
    }
}

proof fn lemma_insert_branch_shape(b: BranchView, s: Seq<BranchView>, m: Map<u64, usize>)
    requires
        catalog_ranges_ok(s, m),
        b.range.1 is None,
        m.contains_key(b.target) ==> (b.range.0 matches Some(v) && v <= m[b.target]),
    ensures
        catalog_ranges_ok(spec_insert_branch(b, s), m),
    decreases s.len(),
{
    if s.len() > 0 && !spec_branch_le(s.last(), b) {
        assert(catalog_ranges_ok(s.drop_last(), m));
        lemma_insert_branch_shape(b, s.drop_last(), m);
        let r = spec_insert_branch(b, s);
        assert forall|q: int| 0 <= q < r.len() implies (#[trigger] r[q]).range.1 is None && (
        m.contains_key(r[q].target) ==> (r[q].range.0 matches Some(v) && v
            <= m[r[q].target])) by {
            if q < r.len() - 1 {
                assert(r[q] == spec_insert_branch(b, s.drop_last())[q]);
            } else {
                assert(r[q] == s.last());
                assert(s[s.len() - 1] == s.last());
            }
        }
    } else if s.len() > 0 {
        let r = s.push(b);
        assert forall|q: int| 0 <= q < r.len() implies (#[trigger] r[q]).range.1 is None && (
        m.contains_key(r[q].target) ==> (r[q].range.0 matches Some(v) && v
            <= m[r[q].target])) by {
            if q < s.len() {
                assert(r[q] == s[q]);
            }
        }
    }
}

proof fn lemma_sort_branches_shape(s: Seq<BranchView>, m: Map<u64, usize>)
    requires
        catalog_ranges_ok(s, m),
    ensures
        catalog_ranges_ok(spec_sort_branches(s), m),
    decreases s.len(),
{
    if s.len() > 0 {
        assert(catalog_ranges_ok(s.drop_last(), m));
        lemma_sort_branches_shape(s.drop_last(), m);
        assert(s[s.len() - 1] == s.last());
        lemma_insert_branch_shape(s.last(), spec_sort_branches(s.drop_last()), m);
    }
}

/// The whole catalog hands its candidates out with open range ends and
/// range starts at or before their targets.
pub proof fn lemma_catalog_ranges_ok(
    refs: Seq<RefView>,
    cs: Seq<CommitDataView>,
    tags: Seq<TagView>,
    m: Map<u64, usize>,
    bs: BranchSettings,
    include_remote: bool,
    pats: Seq<Seq<char>>,
)
    requires
        cs.len() <= usize::MAX,
        forall|k: int|
            0 <= k < cs.len() && (#[trigger] cs[k].parent1) is Some && m.contains_key(
                cs[k].parent1->0,
            ) ==> m[cs[k].parent1->0] > k,
    ensures
        spec_catalog(refs, cs, tags, m, bs, include_remote, pats) matches Ok(v)
            ==> catalog_ranges_ok(v, m),
{
    lemma_extract_actual_shape(refs, m, bs, include_remote, 0, 0);
    match spec_extract_actual_from(refs, m, bs, include_remote, 0, 0) {
        Err(_) => {},
        Ok(actual) => {
            lemma_extract_merges_shape(cs, bs, pats, m, 0, actual.1);
            match spec_extract_merges_from(cs, bs, pats, 0, actual.1) {
                Err(_) => {},
                Ok(merges) => {
                    lemma_extract_tags_shape(tags, m, bs, 0, merges.1);
                    match spec_extract_tags_from(tags, m, bs, 0, merges.1) {
                        Err(_) => {},
                        Ok(tagged) => {
                            assert(catalog_ranges_ok(actual.0 + merges.0 + tagged.0, m));
                            lemma_sort_branches_shape(actual.0 + merges.0 + tagged.0, m);
                        },
                    }
                },
            }
        },
    }
}

} // verus!
