use git_graph::settings::MergePatterns;
use git_graph::text::parse_merge_summary;

#[test]
fn graph_parse_merge_summary() {
    let patterns = MergePatterns::default();

    let gitlab_pull = "Merge branch 'feature/my-feature' into 'master'";
    let git_default = "Merge branch 'feature/my-feature' into dev";
    let git_master = "Merge branch 'feature/my-feature'";
    let github_pull = "Merge pull request #1 from user-x/feature/my-feature";
    let github_pull_2 = "Merge branch 'feature/my-feature' of github.com:user-x/repo";
    let bitbucket_pull = "Merged in feature/my-feature (pull request #1)";

    assert_eq!(
        parse_merge_summary(gitlab_pull, &patterns),
        Some("feature/my-feature".to_string()),
    );
    assert_eq!(
        parse_merge_summary(git_default, &patterns),
        Some("feature/my-feature".to_string()),
    );
    assert_eq!(
        parse_merge_summary(git_master, &patterns),
        Some("feature/my-feature".to_string()),
    );
    assert_eq!(
        parse_merge_summary(github_pull, &patterns),
        Some("feature/my-feature".to_string()),
    );
    assert_eq!(
        parse_merge_summary(github_pull_2, &patterns),
        Some("feature/my-feature".to_string()),
    );
    assert_eq!(
        parse_merge_summary(bitbucket_pull, &patterns),
        Some("feature/my-feature".to_string()),
    );
}

#[test]
fn text_parse_merge_summary() {
    let patterns = MergePatterns::default();

    let gitlab_pull = "Merge branch 'feature/my-feature' into 'master'";
    let git_default = "Merge branch 'feature/my-feature' into dev";
    let git_master = "Merge branch 'feature/my-feature'";
    let github_pull = "Merge pull request #1 from user-x/feature/my-feature";
    let github_pull_2 = "Merge branch 'feature/my-feature' of github.com:user-x/repo";
    let bitbucket_pull = "Merged in feature/my-feature (pull request #1)";

    assert_eq!(
        parse_merge_summary(&gitlab_pull, &patterns),
        Some("feature/my-feature".to_string()),
    );
    assert_eq!(
        parse_merge_summary(&git_default, &patterns),
        Some("feature/my-feature".to_string()),
    );
    assert_eq!(
        parse_merge_summary(&git_master, &patterns),
        Some("feature/my-feature".to_string()),
    );
    assert_eq!(
        parse_merge_summary(&github_pull, &patterns),
        Some("feature/my-feature".to_string()),
    );
    assert_eq!(
        parse_merge_summary(&github_pull_2, &patterns),
        Some("feature/my-feature".to_string()),
    );
    assert_eq!(
        parse_merge_summary(&bitbucket_pull, &patterns),
        Some("feature/my-feature".to_string()),
    );
}

#[test]
fn parse_merge_summary_unmatched() {
    let patterns = MergePatterns::default();
    assert_eq!(parse_merge_summary("Update readme", &patterns), None);
    assert_eq!(parse_merge_summary("", &patterns), None);
}
