//! Graph generation settings.

use vstd::prelude::*;

use crate::format::CommitFormat;
use crate::matching::check_pattern;
use crate::matching::regex_valid;
use crate::text::str_eq;

verus! {

/// Repository settings for the branching model.
pub struct RepoSettings {
    /// The repository's branching model
    pub model: String,
}

/// Ordering policy for branches in visual columns.
pub enum BranchOrder {
    /// Shortest branches are inserted left-most.
    ///
    /// For branches with equal length, branches ending last are inserted
    /// first; reverse (arg = false): branches ending first are inserted first.
    ShortestFirst(bool),
    /// Longest branches are inserted left-most.
    ///
    /// For branches with equal length, branches ending last are inserted
    /// first; reverse (arg = false): branches ending first are inserted first.
    LongestFirst(bool),
}

/// Top-level settings.
pub struct Settings {
    /// Debug printing and drawing
    pub debug: bool,
    /// Compact text-based graph
    pub compact: bool,
    /// Colored text-based graph
    pub colored: bool,
    /// Include remote branches?
    pub include_remote: bool,
    /// Formatting for commits
    pub format: CommitFormat,
    /// Text wrapping options
    pub wrapping: Option<(Option<usize>, Option<usize>, Option<usize>)>,
    /// Characters to use for text-based graph
    pub characters: Characters,
    /// Branch column sorting algorithm
    pub branch_order: BranchOrder,
    /// Settings for branches
    pub branches: BranchSettings,
    /// Regex patterns for finding branch names in merge commit summaries
    pub merge_patterns: MergePatterns,
}

/// Helper for reading [BranchSettings]: patterns are still plain strings.
pub struct BranchSettingsDef {
    /// Branch persistence
    pub persistence: Vec<String>,
    /// Branch ordering
    pub order: Vec<String>,
    /// Branch colors
    pub terminal_colors: ColorsDef,
    /// Branch colors for SVG output
    pub svg_colors: ColorsDef,
}

/// Helper for reading branch colors.
pub struct ColorsDef {
    pub matches: Vec<(String, Vec<String>)>,
    pub unknown: Vec<String>,
}

/// Settings defining branching models.
///
/// Patterns are kept as their source text; [BranchSettings::from] accepts a
/// definition only when every pattern compiles as a regular expression.
pub struct BranchSettings {
    /// Branch persistence
    pub persistence: Vec<String>,
    /// Branch ordering
    pub order: Vec<String>,
    /// Branch colors
    pub terminal_colors: Vec<(String, Vec<String>)>,
    /// Colors for branches not matching any of `terminal_colors`
    pub terminal_colors_unknown: Vec<String>,
    /// Branch colors for SVG output
    pub svg_colors: Vec<(String, Vec<String>)>,
    /// Colors for branches not matching any of `svg_colors` for SVG output
    pub svg_colors_unknown: Vec<String>,
}

/// Every pattern of `v` compiles as a regular expression.
pub open spec fn patterns_valid(v: Seq<String>) -> bool {
    forall|i: int| 0 <= i < v.len() ==> regex_valid(#[trigger] v[i]@)
}

/// Every pattern of the paired color rules compiles as a regular expression.
pub open spec fn color_patterns_valid(v: Seq<(String, Vec<String>)>) -> bool {
    forall|i: int| 0 <= i < v.len() ==> regex_valid(#[trigger] v[i].0@)
}

impl BranchSettings {
    /// The color rules the catalog relies on: each rule's color list and the
    /// fallback lists are non-empty (an empty list would leave a matching
    /// branch without a color).
    pub open spec fn colors_wf(&self) -> bool {
        &&& self.terminal_colors_unknown.len() > 0
        &&& self.svg_colors_unknown.len() > 0
        &&& forall|i: int|
            0 <= i < self.terminal_colors.len() ==> (#[trigger] self.terminal_colors[i]).1.len()
                > 0
        &&& forall|i: int| 0 <= i < self.svg_colors.len() ==> (#[trigger] self.svg_colors[i]).1.len() > 0
    }

    /// Builds branching-model settings, accepting the definition exactly when
    /// every one of its patterns compiles as a regular expression.
    pub fn from(def: BranchSettingsDef) -> (r: Result<BranchSettings, String>)
        ensures
            match r {
                Ok(s) => {
                    &&& patterns_valid(def.persistence@)
                    &&& patterns_valid(def.order@)
                    &&& color_patterns_valid(def.terminal_colors.matches@)
                    &&& color_patterns_valid(def.svg_colors.matches@)
                    &&& s.persistence == def.persistence
                    &&& s.order == def.order
                    &&& s.terminal_colors == def.terminal_colors.matches
                    &&& s.terminal_colors_unknown == def.terminal_colors.unknown
                    &&& s.svg_colors == def.svg_colors.matches
                    &&& s.svg_colors_unknown == def.svg_colors.unknown
                },
                Err(_) => !(patterns_valid(def.persistence@) && patterns_valid(def.order@)
                    && color_patterns_valid(def.terminal_colors.matches@) && color_patterns_valid(
                    def.svg_colors.matches@,
                )),
            },
    {
        let mut i: usize = 0;
        let n = def.persistence.len();
        while i < n
            invariant
                i <= n,
                forall|j: int| 0 <= j < i ==> regex_valid(#[trigger] def.persistence@[j]@),
            decreases n - i,
        {
            if !check_pattern(def.persistence[i].as_str()) {
                return Err(String::from_str("invalid regular expression in persistence rules"));
            }
            i += 1;
        }
        let mut i: usize = 0;
        let n = def.order.len();
        while i < n
            invariant
                i <= n,
                forall|j: int| 0 <= j < i ==> regex_valid(#[trigger] def.order@[j]@),
            decreases n - i,
        {
            if !check_pattern(def.order[i].as_str()) {
                return Err(String::from_str("invalid regular expression in order rules"));
            }
            i += 1;
        }
        let mut i: usize = 0;
        let n = def.terminal_colors.matches.len();
        while i < n
            invariant
                i <= n,
                forall|j: int| 0 <= j < i ==> regex_valid(#[trigger] def.terminal_colors.matches@[j].0@),
            decreases n - i,
        {
            if !check_pattern(def.terminal_colors.matches[i].0.as_str()) {
                return Err(String::from_str("invalid regular expression in terminal color rules"));
            }
            i += 1;
        }
        let mut i: usize = 0;
        let n = def.svg_colors.matches.len();
        while i < n
            invariant
                i <= n,
                forall|j: int| 0 <= j < i ==> regex_valid(#[trigger] def.svg_colors.matches@[j].0@),
            decreases n - i,
        {
            if !check_pattern(def.svg_colors.matches[i].0.as_str()) {
                return Err(String::from_str("invalid regular expression in svg color rules"));
            }
            i += 1;
        }
        Ok(
            BranchSettings {
                persistence: def.persistence,
                order: def.order,
                terminal_colors: def.terminal_colors.matches,
                terminal_colors_unknown: def.terminal_colors.unknown,
                svg_colors: def.svg_colors.matches,
                svg_colors_unknown: def.svg_colors.unknown,
            },
        )
    }
}

impl BranchSettingsDef {
    /// The Git-Flow model.
    pub fn git_flow() -> (r: BranchSettingsDef)
        ensures
            r.persistence@.len() == 6,
            r.persistence@[0]@ == "^(master|main)$"@,
            r.persistence@[1]@ == "^(develop|dev)$"@,
            r.persistence@[2]@ == "^feature.*$"@,
            r.persistence@[3]@ == "^release.*$"@,
            r.persistence@[4]@ == "^hotfix.*$"@,
            r.persistence@[5]@ == "^bugfix.*$"@,
            r.order@.len() == 3,
            r.order@[0]@ == "^(master|main)$"@,
            r.order@[1]@ == "^(hotfix|release).*$"@,
            r.order@[2]@ == "^(develop|dev)$"@,
            r.terminal_colors.matches@.len() == 6,
            forall|i: int|
                0 <= i < 6 ==> (#[trigger] r.terminal_colors.matches@[i]).1.len() > 0,
            r.terminal_colors.matches@[0].0@ == "^(master|main)$"@,
            r.terminal_colors.matches@[0].1@[0]@ == "bright_blue"@,
            r.terminal_colors.matches@[1].0@ == "^(develop|dev)$"@,
            r.terminal_colors.matches@[2].0@ == "^(feature|fork/).*$"@,
            r.terminal_colors.matches@[2].1@.len() == 2,
            r.terminal_colors.matches@[3].0@ == "^release.*$"@,
            r.terminal_colors.matches@[4].0@ == "^(bugfix|hotfix).*$"@,
            r.terminal_colors.matches@[5].0@ == "^tags/.*$"@,
            r.terminal_colors.unknown@.len() == 1,
            r.terminal_colors.unknown@[0]@ == "white"@,
            r.svg_colors.matches@.len() == 6,
            forall|i: int| 0 <= i < 6 ==> (#[trigger] r.svg_colors.matches@[i]).1.len() > 0,
            r.svg_colors.unknown@.len() == 1,
            r.svg_colors.unknown@[0]@ == "gray"@,
    {
        let mut persistence: Vec<String> = Vec::new();
        persistence.push(String::from_str("^(master|main)$"));
        persistence.push(String::from_str("^(develop|dev)$"));
        persistence.push(String::from_str("^feature.*$"));
        persistence.push(String::from_str("^release.*$"));
        persistence.push(String::from_str("^hotfix.*$"));
        persistence.push(String::from_str("^bugfix.*$"));
        let mut order: Vec<String> = Vec::new();
        order.push(String::from_str("^(master|main)$"));
        order.push(String::from_str("^(hotfix|release).*$"));
        order.push(String::from_str("^(develop|dev)$"));
        let mut term_matches: Vec<(String, Vec<String>)> = Vec::new();
        let mut cols: Vec<String> = Vec::new();
        cols.push(String::from_str("bright_blue"));
        term_matches.push((String::from_str("^(master|main)$"), cols));
        let mut cols: Vec<String> = Vec::new();
        cols.push(String::from_str("bright_yellow"));
        term_matches.push((String::from_str("^(develop|dev)$"), cols));
        let mut cols: Vec<String> = Vec::new();
        cols.push(String::from_str("bright_magenta"));
        cols.push(String::from_str("bright_cyan"));
        term_matches.push((String::from_str("^(feature|fork/).*$"), cols));
        let mut cols: Vec<String> = Vec::new();
        cols.push(String::from_str("bright_green"));
        term_matches.push((String::from_str("^release.*$"), cols));
        let mut cols: Vec<String> = Vec::new();
        cols.push(String::from_str("bright_red"));
        term_matches.push((String::from_str("^(bugfix|hotfix).*$"), cols));
        let mut cols: Vec<String> = Vec::new();
        cols.push(String::from_str("bright_green"));
        term_matches.push((String::from_str("^tags/.*$"), cols));
        let mut term_unknown: Vec<String> = Vec::new();
        term_unknown.push(String::from_str("white"));
        let mut svg_matches: Vec<(String, Vec<String>)> = Vec::new();
        let mut cols: Vec<String> = Vec::new();
        cols.push(String::from_str("blue"));
        svg_matches.push((String::from_str("^(master|main)$"), cols));
        let mut cols: Vec<String> = Vec::new();
        cols.push(String::from_str("orange"));
        svg_matches.push((String::from_str("^(develop|dev)$"), cols));
        let mut cols: Vec<String> = Vec::new();
        cols.push(String::from_str("purple"));
        cols.push(String::from_str("turquoise"));
        svg_matches.push((String::from_str("^(feature|fork/).*$"), cols));
        let mut cols: Vec<String> = Vec::new();
        cols.push(String::from_str("green"));
        svg_matches.push((String::from_str("^release.*$"), cols));
        let mut cols: Vec<String> = Vec::new();
        cols.push(String::from_str("red"));
        svg_matches.push((String::from_str("^(bugfix|hotfix).*$"), cols));
        let mut cols: Vec<String> = Vec::new();
        cols.push(String::from_str("green"));
        svg_matches.push((String::from_str("^tags/.*$"), cols));
        let mut svg_unknown: Vec<String> = Vec::new();
        svg_unknown.push(String::from_str("gray"));
        BranchSettingsDef {
            persistence,
            order,
            terminal_colors: ColorsDef { matches: term_matches, unknown: term_unknown },
            svg_colors: ColorsDef { matches: svg_matches, unknown: svg_unknown },
        }
    }

    /// Simple feature-based model.
    pub fn simple() -> (r: BranchSettingsDef)
        ensures
            r.persistence@.len() == 1,
            r.persistence@[0]@ == "^(master|main)$"@,
            r.order@.len() == 2,
            r.order@[0]@ == "^tags/.*$"@,
            r.order@[1]@ == "^(master|main)$"@,
            r.terminal_colors.matches@.len() == 2,
            forall|i: int|
                0 <= i < 2 ==> (#[trigger] r.terminal_colors.matches@[i]).1.len() > 0,
            r.terminal_colors.matches@[0].0@ == "^(master|main)$"@,
            r.terminal_colors.matches@[1].0@ == "^tags/.*$"@,
            r.terminal_colors.unknown@.len() == 5,
            r.svg_colors.matches@.len() == 2,
            forall|i: int| 0 <= i < 2 ==> (#[trigger] r.svg_colors.matches@[i]).1.len() > 0,
            r.svg_colors.unknown@.len() == 5,
    {
        let mut persistence: Vec<String> = Vec::new();
        persistence.push(String::from_str("^(master|main)$"));
        let mut order: Vec<String> = Vec::new();
        order.push(String::from_str("^tags/.*$"));
        order.push(String::from_str("^(master|main)$"));
        let mut term_matches: Vec<(String, Vec<String>)> = Vec::new();
        let mut cols: Vec<String> = Vec::new();
        cols.push(String::from_str("bright_blue"));
        term_matches.push((String::from_str("^(master|main)$"), cols));
        let mut cols: Vec<String> = Vec::new();
        cols.push(String::from_str("bright_green"));
        term_matches.push((String::from_str("^tags/.*$"), cols));
        let mut term_unknown: Vec<String> = Vec::new();
        term_unknown.push(String::from_str("bright_yellow"));
        term_unknown.push(String::from_str("bright_green"));
        term_unknown.push(String::from_str("bright_red"));
        term_unknown.push(String::from_str("bright_magenta"));
        term_unknown.push(String::from_str("bright_cyan"));
        let mut svg_matches: Vec<(String, Vec<String>)> = Vec::new();
        let mut cols: Vec<String> = Vec::new();
        cols.push(String::from_str("blue"));
        svg_matches.push((String::from_str("^(master|main)$"), cols));
        let mut cols: Vec<String> = Vec::new();
        cols.push(String::from_str("green"));
        svg_matches.push((String::from_str("^tags/.*$"), cols));
        let mut svg_unknown: Vec<String> = Vec::new();
        svg_unknown.push(String::from_str("orange"));
        svg_unknown.push(String::from_str("green"));
        svg_unknown.push(String::from_str("red"));
        svg_unknown.push(String::from_str("purple"));
        svg_unknown.push(String::from_str("turquoise"));
        BranchSettingsDef {
            persistence,
            order,
            terminal_colors: ColorsDef { matches: term_matches, unknown: term_unknown },
            svg_colors: ColorsDef { matches: svg_matches, unknown: svg_unknown },
        }
    }

    /// Very simple model without any defined branch roles.
    pub fn none() -> (r: BranchSettingsDef)
        ensures
            r.persistence@.len() == 0,
            r.order@.len() == 0,
            r.terminal_colors.matches@.len() == 0,
            r.terminal_colors.unknown@.len() == 6,
            r.svg_colors.matches@.len() == 0,
            r.svg_colors.unknown@.len() == 6,
    {
        let persistence: Vec<String> = Vec::new();
        let order: Vec<String> = Vec::new();
        let term_matches: Vec<(String, Vec<String>)> = Vec::new();
        let mut term_unknown: Vec<String> = Vec::new();
        term_unknown.push(String::from_str("bright_blue"));
        term_unknown.push(String::from_str("bright_yellow"));
        term_unknown.push(String::from_str("bright_green"));
        term_unknown.push(String::from_str("bright_red"));
        term_unknown.push(String::from_str("bright_magenta"));
        term_unknown.push(String::from_str("bright_cyan"));
        let svg_matches: Vec<(String, Vec<String>)> = Vec::new();
        let mut svg_unknown: Vec<String> = Vec::new();
        svg_unknown.push(String::from_str("blue"));
        svg_unknown.push(String::from_str("orange"));
        svg_unknown.push(String::from_str("green"));
        svg_unknown.push(String::from_str("red"));
        svg_unknown.push(String::from_str("purple"));
        svg_unknown.push(String::from_str("turquoise"));
        BranchSettingsDef {
            persistence,
            order,
            terminal_colors: ColorsDef { matches: term_matches, unknown: term_unknown },
            svg_colors: ColorsDef { matches: svg_matches, unknown: svg_unknown },
        }
    }
}

/// RegEx patterns for extracting branch names from merge commit summaries.
pub struct MergePatterns {
    /// The patterns. Evaluated in the given order.
    pub patterns: Vec<String>,
}

impl Default for MergePatterns {
    /// The built-in merge-summary patterns, for GitLab, plain git, GitHub and
    /// BitBucket merge summaries, in that order.
    fn default() -> (r: MergePatterns)
        ensures
            r.patterns@.len() == 6,
            r.patterns@[0]@ == "^Merge branch '(.+)' into '.+'$"@,
            r.patterns@[1]@ == "^Merge branch '(.+)' into .+$"@,
            r.patterns@[2]@ == "^Merge branch '(.+)'$"@,
            r.patterns@[3]@ == "^Merge pull request #[0-9]+ from .[^/]+/(.+)$"@,
            r.patterns@[4]@ == "^Merge branch '(.+)' of .+$"@,
            r.patterns@[5]@ == "^Merged in (.+) \\(pull request #[0-9]+\\)$"@,
    {
        let mut patterns: Vec<String> = Vec::new();
        patterns.push(String::from_str("^Merge branch '(.+)' into '.+'$"));
        patterns.push(String::from_str("^Merge branch '(.+)' into .+$"));
        patterns.push(String::from_str("^Merge branch '(.+)'$"));
        patterns.push(String::from_str("^Merge pull request #[0-9]+ from .[^/]+/(.+)$"));
        patterns.push(String::from_str("^Merge branch '(.+)' of .+$"));
        patterns.push(String::from_str("^Merged in (.+) \\(pull request #[0-9]+\\)$"));
        MergePatterns { patterns }
    }
}

/// The characters used for drawing text-based graphs.
pub struct Characters {
    pub chars: Vec<char>,
}

impl Characters {
    /// A character set holds one symbol for each of the 16 cell codes.
    pub open spec fn wf(&self) -> bool {
        self.chars@.len() == 16
    }

    /// Default/thin graphs
    pub fn thin() -> (r: Characters)
        ensures
            r.wf(),
            r.chars@ == Characters::thin_chars(),
    {
        let mut chars: Vec<char> = Vec::new();
        chars.push(' ');
        chars.push('\u{25cf}');
        chars.push('\u{25cb}');
        chars.push('\u{2502}');
        chars.push('\u{2500}');
        chars.push('\u{253c}');
        chars.push('\u{2514}');
        chars.push('\u{250c}');
        chars.push('\u{2510}');
        chars.push('\u{2518}');
        chars.push('\u{2524}');
        chars.push('\u{251c}');
        chars.push('\u{2534}');
        chars.push('\u{252c}');
        chars.push('<');
        chars.push('>');
        proof {
            assert(chars@ =~= Characters::thin_chars());
        }
        Characters { chars }
    }

    /// Graphs with rounded corners
    pub fn round() -> (r: Characters)
        ensures
            r.wf(),
            r.chars@ == Characters::round_chars(),
    {
        let mut chars: Vec<char> = Vec::new();
        chars.push(' ');
        chars.push('\u{25cf}');
        chars.push('\u{25cb}');
        chars.push('\u{2502}');
        chars.push('\u{2500}');
        chars.push('\u{253c}');
        chars.push('\u{2570}');
        chars.push('\u{256d}');
        chars.push('\u{256e}');
        chars.push('\u{256f}');
        chars.push('\u{2524}');
        chars.push('\u{251c}');
        chars.push('\u{2534}');
        chars.push('\u{252c}');
        chars.push('<');
        chars.push('>');
        proof {
            assert(chars@ =~= Characters::round_chars());
        }
        Characters { chars }
    }

    /// Bold/fat graphs
    pub fn bold() -> (r: Characters)
        ensures
            r.wf(),
            r.chars@ == Characters::bold_chars(),
    {
        let mut chars: Vec<char> = Vec::new();
        chars.push(' ');
        chars.push('\u{25cf}');
        chars.push('\u{25cb}');
        chars.push('\u{2503}');
        chars.push('\u{2501}');
        chars.push('\u{254b}');
        chars.push('\u{2517}');
        chars.push('\u{250f}');
        chars.push('\u{2513}');
        chars.push('\u{251b}');
        chars.push('\u{252b}');
        chars.push('\u{2523}');
        chars.push('\u{253b}');
        chars.push('\u{2533}');
        chars.push('<');
        chars.push('>');
        proof {
            assert(chars@ =~= Characters::bold_chars());
        }
        Characters { chars }
    }

    /// Double-lined graphs
    pub fn double() -> (r: Characters)
        ensures
            r.wf(),
            r.chars@ == Characters::double_chars(),
    {
        let mut chars: Vec<char> = Vec::new();
        chars.push(' ');
        chars.push('\u{25cf}');
        chars.push('\u{25cb}');
        chars.push('\u{2551}');
        chars.push('\u{2550}');
        chars.push('\u{256c}');
        chars.push('\u{255a}');
        chars.push('\u{2554}');
        chars.push('\u{2557}');
        chars.push('\u{255d}');
        chars.push('\u{2563}');
        chars.push('\u{2560}');
        chars.push('\u{2569}');
        chars.push('\u{2566}');
        chars.push('<');
        chars.push('>');
        proof {
            assert(chars@ =~= Characters::double_chars());
        }
        Characters { chars }
    }

    /// ASCII-only graphs
    pub fn ascii() -> (r: Characters)
        ensures
            r.wf(),
            r.chars@ == Characters::ascii_chars(),
    {
        let mut chars: Vec<char> = Vec::new();
        chars.push(' ');
        chars.push('*');
        chars.push('o');
        chars.push('|');
        chars.push('-');
        chars.push('+');
        chars.push('\'');
        chars.push('.');
        chars.push('.');
        chars.push('\'');
        chars.push('|');
        chars.push('|');
        chars.push('+');
        chars.push('+');
        chars.push('<');
        chars.push('>');
        proof {
            assert(chars@ =~= Characters::ascii_chars());
        }
        Characters { chars }
    }

    /// Picks a character set by its style name, as `from_str` does for the
    /// command line: `Ok` exactly for the documented names and abbreviations.
    pub fn from_str(s: &str) -> (r: Result<Characters, String>)
        ensures
            match r {
                Ok(c) => {
                    &&& c.wf()
                    &&& if s@ == "normal"@ || s@ == "thin"@ || s@ == "n"@ || s@ == "t"@ {
                        c.chars@ == Characters::thin_chars()
                    } else if s@ == "round"@ || s@ == "r"@ {
                        c.chars@ == Characters::round_chars()
                    } else if s@ == "bold"@ || s@ == "b"@ {
                        c.chars@ == Characters::bold_chars()
                    } else if s@ == "double"@ || s@ == "d"@ {
                        c.chars@ == Characters::double_chars()
                    } else if s@ == "ascii"@ || s@ == "a"@ {
                        c.chars@ == Characters::ascii_chars()
                    } else {
                        false
                    }
                },
                Err(_) => !(s@ == "normal"@ || s@ == "thin"@ || s@ == "n"@ || s@ == "t"@ || s@
                    == "round"@ || s@ == "r"@ || s@ == "bold"@ || s@ == "b"@ || s@ == "double"@
                    || s@ == "d"@ || s@ == "ascii"@ || s@ == "a"@),
            },
    {
        if str_eq(s, "normal") || str_eq(s, "thin") || str_eq(s, "n") || str_eq(s, "t") {
            Ok(Characters::thin())
        } else if str_eq(s, "round") || str_eq(s, "r") {
            Ok(Characters::round())
        } else if str_eq(s, "bold") || str_eq(s, "b") {
            Ok(Characters::bold())
        } else if str_eq(s, "double") || str_eq(s, "d") {
            Ok(Characters::double())
        } else if str_eq(s, "ascii") || str_eq(s, "a") {
            Ok(Characters::ascii())
        } else {
            Err(
                String::from_str(
                    "Unknown characters/style. Must be one of [normal|thin|round|bold|double|ascii]",
                ),
            )
        }
    }

    /// The symbols of the thin style.
    pub open spec fn thin_chars() -> Seq<char> {
        seq![
            ' ', '\u{25cf}', '\u{25cb}', '\u{2502}', '\u{2500}', '\u{253c}', '\u{2514}',
            '\u{250c}', '\u{2510}', '\u{2518}', '\u{2524}', '\u{251c}', '\u{2534}', '\u{252c}',
            '<', '>',
        ]
    }

    /// The symbols of the round style.
    pub open spec fn round_chars() -> Seq<char> {
        seq![
            ' ', '\u{25cf}', '\u{25cb}', '\u{2502}', '\u{2500}', '\u{253c}', '\u{2570}',
            '\u{256d}', '\u{256e}', '\u{256f}', '\u{2524}', '\u{251c}', '\u{2534}', '\u{252c}',
            '<', '>',
        ]
    }

    /// The symbols of the bold style.
    pub open spec fn bold_chars() -> Seq<char> {
        seq![
            ' ', '\u{25cf}', '\u{25cb}', '\u{2503}', '\u{2501}', '\u{254b}', '\u{2517}',
            '\u{250f}', '\u{2513}', '\u{251b}', '\u{252b}', '\u{2523}', '\u{253b}', '\u{2533}',
            '<', '>',
        ]
    }

    /// The symbols of the double-lined style.
    pub open spec fn double_chars() -> Seq<char> {
        seq![
            ' ', '\u{25cf}', '\u{25cb}', '\u{2551}', '\u{2550}', '\u{256c}', '\u{255a}',
            '\u{2554}', '\u{2557}', '\u{255d}', '\u{2563}', '\u{2560}', '\u{2569}', '\u{2566}',
            '<', '>',
        ]
    }

    /// The symbols of the ASCII-only style.
    pub open spec fn ascii_chars() -> Seq<char> {
        seq![' ', '*', 'o', '|', '-', '+', '\'', '.', '.', '\'', '|', '|', '+', '+', '<', '>']
    }
}

} // verus!
