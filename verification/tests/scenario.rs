use git_graph::format::CommitFormat;
use git_graph::graph::CommitData;
use git_graph::graph::GitGraph;
use git_graph::graph::HeadInfo;
use git_graph::graph::RefData;
use git_graph::graph::TagData;
use git_graph::settings::BranchOrder;
use git_graph::settings::BranchSettings;
use git_graph::settings::BranchSettingsDef;
use git_graph::settings::Characters;
use git_graph::settings::MergePatterns;
use git_graph::settings::Settings;
use git_graph::unicode::print_unicode;

fn test_settings() -> Settings {
    Settings {
        debug: false,
        compact: true,
        colored: false,
        include_remote: true,
        format: CommitFormat::OneLine,
        wrapping: None,
        characters: Characters::thin(),
        branch_order: BranchOrder::ShortestFirst(true),
        branches: BranchSettings::from(BranchSettingsDef::git_flow()).unwrap(),
        merge_patterns: MergePatterns::default(),
    }
}

/// Newest first, children before parents: C2 (merge of F0 into main),
/// F0 (the feature commit), C1, C0 (the root).
fn linear_history_with_feature() -> (Vec<CommitData>, Vec<RefData>, Vec<TagData>, HeadInfo) {
    let c2 = 20u64;
    let f0 = 15u64;
    let c1 = 11u64;
    let c0 = 10u64;
    let commits = vec![
        CommitData {
            oid: c2,
            parents: (Some(c1), Some(f0)),
            summary: Some("Merge branch 'feature/x'".to_string()),
        },
        CommitData { oid: f0, parents: (Some(c1), None), summary: Some("feature work".to_string()) },
        CommitData { oid: c1, parents: (Some(c0), None), summary: Some("second".to_string()) },
        CommitData { oid: c0, parents: (None, None), summary: Some("first".to_string()) },
    ];
    let refs = vec![RefData { name: "main".to_string(), target: c2, is_remote: false }];
    let tags: Vec<TagData> = vec![];
    let head = HeadInfo { oid: c2, name: "main".to_string(), is_branch: true };
    (commits, refs, tags, head)
}

#[test]
fn merged_feature_branch_layout() {
    let (commits, refs, tags, head) = linear_history_with_feature();
    let settings = test_settings();
    let graph = GitGraph::new(commits, refs, tags, head, &settings).unwrap();

    assert_eq!(graph.commits.len(), 4);
    assert_eq!(graph.all_branches.len(), 2);

    let main = &graph.all_branches[0];
    let feature = &graph.all_branches[1];
    assert_eq!(main.name, "main");
    assert_eq!(feature.name, "feature/x");
    assert!(feature.is_merged);
    assert!(!main.is_merged);

    // main spans the whole first-parent chain, the feature lane only F0
    assert_eq!(main.range, (Some(0), Some(3)));
    assert_eq!(feature.range, (Some(1), Some(1)));
    assert_eq!(main.visual.column, Some(0));
    assert_eq!(feature.visual.column, Some(1));

    // the merge commit itself stays on main
    assert!(graph.commits[0].is_merge);
    assert_eq!(graph.commits[0].branch_trace, Some(0));
    assert_eq!(graph.commits[1].branch_trace, Some(1));
    assert_eq!(graph.commits[2].branch_trace, Some(0));
    assert_eq!(graph.commits[3].branch_trace, Some(0));

    // every commit is indexed
    for (i, c) in graph.commits.iter().enumerate() {
        assert_eq!(graph.indices.get(&c.oid), Some(&i));
    }
}

#[test]
fn construction_is_idempotent() {
    let settings = test_settings();
    let (c1, r1, t1, h1) = linear_history_with_feature();
    let (c2, r2, t2, h2) = linear_history_with_feature();
    let g1 = GitGraph::new(c1, r1, t1, h1, &settings).unwrap();
    let g2 = GitGraph::new(c2, r2, t2, h2, &settings).unwrap();

    assert_eq!(g1.commits.len(), g2.commits.len());
    assert_eq!(g1.all_branches.len(), g2.all_branches.len());
    for (a, b) in g1.commits.iter().zip(g2.commits.iter()) {
        assert_eq!(a.oid, b.oid);
        assert_eq!(a.branch_trace, b.branch_trace);
        assert_eq!(a.branches, b.branches);
        assert_eq!(a.tags, b.tags);
    }
    for (a, b) in g1.all_branches.iter().zip(g2.all_branches.iter()) {
        assert_eq!(a.name, b.name);
        assert_eq!(a.range, b.range);
        assert_eq!(a.visual.column, b.visual.column);
        assert_eq!(a.visual.order_group, b.visual.order_group);
    }
}

#[test]
fn root_commit_branch() {
    // a single root commit pointed at by one branch
    let commits = vec![CommitData { oid: 1, parents: (None, None), summary: None }];
    let refs = vec![RefData { name: "main".to_string(), target: 1, is_remote: false }];
    let head = HeadInfo { oid: 1, name: "main".to_string(), is_branch: true };
    let settings = test_settings();
    let graph = GitGraph::new(commits, refs, vec![], head, &settings).unwrap();
    assert_eq!(graph.commits.len(), 1);
    assert_eq!(graph.all_branches.len(), 1);
    assert_eq!(graph.all_branches[0].range, (Some(0), Some(0)));
    assert_eq!(graph.commits[0].branch_trace, Some(0));
}

#[test]
fn unclaimed_commits_are_dropped() {
    // the second root is on no branch and disappears from the graph
    let commits = vec![
        CommitData { oid: 5, parents: (None, None), summary: None },
        CommitData { oid: 6, parents: (None, None), summary: None },
    ];
    let refs = vec![RefData { name: "main".to_string(), target: 5, is_remote: false }];
    let head = HeadInfo { oid: 5, name: "main".to_string(), is_branch: true };
    let settings = test_settings();
    let graph = GitGraph::new(commits, refs, vec![], head, &settings).unwrap();
    assert_eq!(graph.commits.len(), 1);
    assert_eq!(graph.commits[0].oid, 5);
}

#[test]
fn tags_become_branch_labels() {
    let commits = vec![
        CommitData { oid: 2, parents: (Some(1), None), summary: None },
        CommitData { oid: 1, parents: (None, None), summary: None },
    ];
    let refs = vec![RefData { name: "main".to_string(), target: 2, is_remote: false }];
    let tags = vec![TagData { name: "tags/v1.0".to_string(), target: 1 }];
    let head = HeadInfo { oid: 2, name: "main".to_string(), is_branch: true };
    let settings = test_settings();
    let graph = GitGraph::new(commits, refs, tags, head, &settings).unwrap();
    assert_eq!(graph.all_branches.len(), 2);
    let tag_branch = &graph.all_branches[1];
    assert_eq!(tag_branch.name, "tags/v1.0");
    assert!(tag_branch.is_tag);
    // the tag label hangs off the tagged commit
    assert_eq!(graph.commits[1].tags, vec![1]);
}

#[test]
fn unicode_output_shape() {
    let (commits, refs, tags, head) = linear_history_with_feature();
    let settings = test_settings();
    let graph = GitGraph::new(commits, refs, tags, head, &settings).unwrap();
    let text: Vec<Vec<String>> = graph
        .commits
        .iter()
        .map(|c| vec![format!("commit {}", c.oid)])
        .collect();
    let (g_lines, t_lines, index_map) = print_unicode(&graph, &settings, &text).unwrap();
    // one extra row routes the connector from the feature commit back to C1
    assert_eq!(index_map, vec![0, 1, 3, 4]);
    assert_eq!(g_lines.len(), t_lines.len());
    assert_eq!(g_lines.len(), 5);
    // three cells: two columns and the gap between them
    for line in &g_lines {
        assert_eq!(line.chars().count(), 3);
    }
    // the merge commit is drawn as a circle, the others as dots
    assert_eq!(g_lines[0].chars().next().unwrap(), '\u{25cb}');
    assert_eq!(g_lines[3].chars().next().unwrap(), '\u{25cf}');
    assert_eq!(g_lines[4].chars().next().unwrap(), '\u{25cf}');
}

#[test]
fn unknown_color_name_fails_construction() {
    let mut settings = test_settings();
    // a color name that neither the palette nor numeric parsing accepts
    settings.branches.terminal_colors_unknown = vec!["not_a_color".to_string()];
    settings.branches.terminal_colors = vec![];
    let (commits, refs, tags, head) = linear_history_with_feature();
    match GitGraph::new(commits, refs, tags, head, &settings) {
        Ok(_) => panic!("expected a color error"),
        Err(err) => assert_eq!(err, "Color not_a_color not found"),
    }
}

#[test]
fn remote_branches_can_be_excluded() {
    let commits = vec![
        CommitData { oid: 2, parents: (Some(1), None), summary: None },
        CommitData { oid: 1, parents: (None, None), summary: None },
    ];
    let refs = vec![
        RefData { name: "main".to_string(), target: 2, is_remote: false },
        RefData { name: "origin/main".to_string(), target: 2, is_remote: true },
    ];
    let head = HeadInfo { oid: 2, name: "main".to_string(), is_branch: true };
    let mut settings = test_settings();
    settings.include_remote = false;
    let graph = GitGraph::new(commits, refs, vec![], head, &settings).unwrap();
    assert_eq!(graph.all_branches.len(), 1);
    assert_eq!(graph.all_branches[0].name, "main");
}

#[test]
fn same_name_lane_is_not_stolen() {
    // the ref `release` still points at the merged-from commit F0, and the
    // merge summary derives a second `release`: the derived lane must not
    // reclaim F0, it only closes the owner's range and is then discarded
    let m = 30u64;
    let c1 = 21u64;
    let f0 = 22u64;
    let c0 = 10u64;
    let commits = vec![
        CommitData {
            oid: m,
            parents: (Some(c1), Some(f0)),
            summary: Some("Merge branch 'release'".to_string()),
        },
        CommitData { oid: c1, parents: (Some(c0), None), summary: None },
        CommitData { oid: f0, parents: (Some(c0), None), summary: None },
        CommitData { oid: c0, parents: (None, None), summary: None },
    ];
    let refs = vec![
        RefData { name: "main".to_string(), target: m, is_remote: false },
        RefData { name: "release".to_string(), target: f0, is_remote: false },
    ];
    let head = HeadInfo { oid: m, name: "main".to_string(), is_branch: true };
    let settings = test_settings();
    let graph = GitGraph::new(commits, refs, vec![], head, &settings).unwrap();

    // the derived duplicate claimed nothing and was discarded
    assert_eq!(graph.all_branches.len(), 2);
    assert_eq!(graph.all_branches[0].name, "main");
    assert_eq!(graph.all_branches[1].name, "release");
    assert!(!graph.all_branches[1].is_merged);
    // F0 stays with the real release lane
    assert_eq!(graph.commits[2].oid, f0);
    assert_eq!(graph.commits[2].branch_trace, Some(1));
    assert_eq!(graph.all_branches[1].range, (Some(2), Some(2)));
}
