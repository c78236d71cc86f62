use git_graph::catalog::branch_color;
use git_graph::catalog::branch_order;
use git_graph::colors::parse_u8;
use git_graph::colors::to_terminal_color;
use git_graph::format::remove_empty_lines;
use git_graph::format::CommitFormat;
use git_graph::settings::BranchSettings;
use git_graph::settings::BranchSettingsDef;
use git_graph::settings::Characters;
use git_graph::settings::ColorsDef;
use git_graph::text::str_eq;
use git_graph::text::str_starts_with;
use git_graph::unicode::sorted;
use git_graph::unicode::Grid;
use git_graph::unicode::GridCell;

#[test]
fn terminal_color_names() {
    assert_eq!(to_terminal_color("black"), Ok(0));
    assert_eq!(to_terminal_color("bright_blue"), Ok(12));
    assert_eq!(to_terminal_color("bright_white"), Ok(15));
    assert_eq!(to_terminal_color("123"), Ok(123));
    assert_eq!(to_terminal_color("+7"), Ok(7));
    assert_eq!(
        to_terminal_color("no_such_color"),
        Err("Color no_such_color not found".to_string())
    );
    assert_eq!(to_terminal_color("256"), Err("Color 256 not found".to_string()));
}

#[test]
fn parse_u8_values() {
    assert_eq!(parse_u8("0"), Some(0));
    assert_eq!(parse_u8("255"), Some(255));
    assert_eq!(parse_u8("256"), None);
    assert_eq!(parse_u8(""), None);
    assert_eq!(parse_u8("+"), None);
    assert_eq!(parse_u8("12a"), None);
    assert_eq!(parse_u8("007"), Some(7));
    assert_eq!(parse_u8("99999999999999999999"), None);
}

#[test]
fn string_helpers() {
    assert!(str_eq("abc", "abc"));
    assert!(!str_eq("abc", "abd"));
    assert!(!str_eq("abc", "ab"));
    assert!(str_starts_with("origin/main", "origin/"));
    assert!(!str_starts_with("main", "origin/"));
}

#[test]
fn branch_ordering_rules() {
    let settings = BranchSettings::from(BranchSettingsDef::git_flow()).unwrap();
    assert_eq!(branch_order("main", &settings.order), 0);
    assert_eq!(branch_order("origin/main", &settings.order), 0);
    assert_eq!(branch_order("release/1.0", &settings.order), 1);
    assert_eq!(branch_order("develop", &settings.order), 2);
    assert_eq!(branch_order("feature/x", &settings.order), 3);
    assert_eq!(branch_order("main", &settings.persistence), 0);
    assert_eq!(branch_order("feature/x", &settings.persistence), 2);
}

#[test]
fn branch_colors() {
    let settings = BranchSettings::from(BranchSettingsDef::git_flow()).unwrap();
    assert_eq!(
        branch_color(
            "main",
            &settings.terminal_colors,
            &settings.terminal_colors_unknown,
            0,
        ),
        "bright_blue"
    );
    assert_eq!(
        branch_color(
            "origin/main",
            &settings.terminal_colors,
            &settings.terminal_colors_unknown,
            3,
        ),
        "bright_blue"
    );
    // unmatched names cycle through the fallback colors
    assert_eq!(
        branch_color("whatever", &settings.terminal_colors, &settings.terminal_colors_unknown, 5),
        "white"
    );
    // the feature rule has two colors, cycled by the counter
    assert_eq!(
        branch_color("feature/a", &settings.terminal_colors, &settings.terminal_colors_unknown, 0),
        "bright_magenta"
    );
    assert_eq!(
        branch_color("feature/a", &settings.terminal_colors, &settings.terminal_colors_unknown, 1),
        "bright_cyan"
    );
}

#[test]
fn invalid_pattern_is_rejected() {
    let def = BranchSettingsDef {
        persistence: vec!["(".to_string()],
        order: vec![],
        terminal_colors: ColorsDef { matches: vec![], unknown: vec!["white".to_string()] },
        svg_colors: ColorsDef { matches: vec![], unknown: vec!["gray".to_string()] },
    };
    assert!(BranchSettings::from(def).is_err());
}

#[test]
fn character_sets() {
    assert_eq!(Characters::thin().chars.len(), 16);
    assert_eq!(Characters::ascii().chars, " *o|-+'..'||++<>".chars().collect::<Vec<char>>());
    assert!(Characters::from_str("round").is_ok());
    assert!(Characters::from_str("r").is_ok());
    assert!(Characters::from_str("fancy").is_err());
}

#[test]
fn commit_format_names() {
    assert!(matches!(CommitFormat::from_str("oneline"), Ok(CommitFormat::OneLine)));
    assert!(matches!(CommitFormat::from_str("m"), Ok(CommitFormat::Medium)));
    assert!(matches!(CommitFormat::from_str("%h %s"), Ok(CommitFormat::Format(_))));
}

#[test]
fn trailing_empty_lines_are_cut() {
    let mut lines = vec!["a".to_string(), "b".to_string(), "".to_string(), "".to_string()];
    let line = remove_empty_lines(&mut lines, "current".to_string());
    assert_eq!(lines, vec!["a".to_string()]);
    assert_eq!(line, "b");

    let mut empty: Vec<String> = vec![];
    let line = remove_empty_lines(&mut empty, "current".to_string());
    assert_eq!(line, "current");
}

#[test]
fn grid_cells() {
    let init = GridCell { character: 0, color: 7, pers: 3 };
    let mut grid = Grid::new(3, 2, init);
    assert_eq!(grid.index(2, 1), 5);
    grid.set(1, 1, 4, 2, 1);
    assert_eq!(grid.get_tuple(1, 1), (4, 2, 1));
    grid.set_opt(1, 1, None, Some(9), None);
    assert_eq!(grid.get_tuple(1, 1), (4, 9, 1));
    grid.reverse();
    assert_eq!(grid.get_tuple(1, 0), (4, 9, 1));
    assert_eq!(sorted(5, 2), (2, 5));
    assert_eq!(sorted(2, 5), (2, 5));
}
