//! Commit formatting options and text-line helpers.

use vstd::prelude::*;

use crate::text::str_eq;

verus! {

/// Commit formatting options.
pub enum CommitFormat {
    OneLine,
    Short,
    Medium,
    Full,
    Format(String),
}

impl CommitFormat {
    /// Parses a format name; any unknown name becomes a custom format string.
    pub fn from_str(s: &str) -> (r: Result<CommitFormat, String>)
        ensures
            match r {
                Ok(f) => if s@ == "oneline"@ || s@ == "o"@ {
                    f is OneLine
                } else if s@ == "short"@ || s@ == "s"@ {
                    f is Short
                } else if s@ == "medium"@ || s@ == "m"@ {
                    f is Medium
                } else if s@ == "full"@ || s@ == "f"@ {
                    f is Full
                } else {
                    f matches CommitFormat::Format(t) && t@ == s@
                },
                Err(_) => false,
            },
    {
        if str_eq(s, "oneline") || str_eq(s, "o") {
            Ok(CommitFormat::OneLine)
        } else if str_eq(s, "short") || str_eq(s, "s") {
            Ok(CommitFormat::Short)
        } else if str_eq(s, "medium") || str_eq(s, "m") {
            Ok(CommitFormat::Medium)
        } else if str_eq(s, "full") || str_eq(s, "f") {
            Ok(CommitFormat::Full)
        } else {
            Ok(CommitFormat::Format(String::from_str(s)))
        }
    }
}

/// What `remove_empty_lines` leaves behind: trailing empty lines are dropped,
/// and the line nearest the cut takes the place of the current line.
pub open spec fn spec_trim_empty(lines: Seq<Seq<char>>) -> Seq<Seq<char>>
    decreases lines.len(),
{
    if lines.len() > 0 && lines.last().len() == 0 {
        spec_trim_empty(lines.drop_last())
    } else {
        lines
    }
}

/// Removes empty lines from the end of `lines`, then removes and returns the
/// line just before the cut (it becomes the new current line); the current
/// line is handed back unchanged only when `lines` was empty to begin with.
pub fn remove_empty_lines(lines: &mut Vec<String>, line: String) -> (r: String)
    ensures
        ({
            let all0 = old(lines)@.map_values(|l: String| l@);
            let trimmed = spec_trim_empty(all0);
            &&& (trimmed.len() > 0 ==> final(lines)@.map_values(|l: String| l@)
                == trimmed.drop_last() && r@ == trimmed.last())
            &&& (trimmed.len() == 0 ==> final(lines)@.len() == 0)
            &&& (trimmed.len() == 0 && all0.len() > 0 ==> r@.len() == 0)
            &&& (all0.len() == 0 ==> r == line)
        }),
{
    let ghost all0 = old(lines)@.map_values(|l: String| l@);
    let ghost line0 = line;
    let mut line = line;
    let mut dropped = false;
    while lines.len() > 0 && lines[lines.len() - 1].as_str().is_empty()
        invariant
            spec_trim_empty(all0) == spec_trim_empty(lines@.map_values(|l: String| l@)),
            all0.len() == 0 ==> lines@.len() == 0,
            dropped ==> line@.len() == 0 && all0.len() > 0,
            !dropped ==> line == line0 && lines@ == old(lines)@,
        decreases lines.len(),
    {
        let ghost pre = lines@;
        line = lines.remove(lines.len() - 1);
        dropped = true;
        proof {
            let prev = pre.map_values(|l: String| l@);
            let cur = lines@.map_values(|l: String| l@);
            assert(lines@ =~= pre.drop_last());
            assert(cur =~= prev.drop_last());
            assert(prev.last().len() == 0);
            assert(spec_trim_empty(prev) == spec_trim_empty(cur));
        }
    }
    proof {
        let cur = lines@.map_values(|l: String| l@);
        if lines@.len() > 0 {
            assert(cur.last() == lines@[lines@.len() - 1]@);
            assert(cur.last().len() != 0);
        }
        assert(spec_trim_empty(cur) == cur);
    }
    if lines.len() > 0 {
        let ghost pre = lines@;
        line = lines.remove(lines.len() - 1);
        proof {
            let prev = pre.map_values(|l: String| l@);
            let cur = lines@.map_values(|l: String| l@);
            assert(lines@ =~= pre.drop_last());
            assert(cur =~= prev.drop_last());
            assert(line@ == prev.last());
        }
    }
    line
}

} // verus!
