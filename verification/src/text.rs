//! String helpers and extraction of branch names from merge-commit summaries.

use vstd::prelude::*;

use crate::matching::pattern_capture;
use crate::matching::regex_capture;
use crate::settings::MergePatterns;

verus! {

/// Character-wise string equality; decides `a@ == b@`.
pub fn str_eq(a: &str, b: &str) -> (r: bool)
    ensures
        r == (a@ == b@),
{
    let alen = a.unicode_len();
    let blen = b.unicode_len();
    if alen != blen {
        return false;
    }
    let mut i: usize = 0;
    while i < alen
        invariant
            i <= alen,
            forall|j: int| 0 <= j < i ==> a@[j] == b@[j],
        decreases alen - i,
    {
        if a.get_char(i) != b.get_char(i) {
            return false;
        }
        i += 1;
    }
    proof {
        assert(a@ =~= b@);
    }
    true
}

/// True when `p@` is a prefix of `s@`.
pub open spec fn spec_starts_with(s: Seq<char>, p: Seq<char>) -> bool {
    s.len() >= p.len() && s.subrange(0, p.len() as int) == p
}

/// Decides whether `p` is a prefix of `s`.
pub fn str_starts_with(s: &str, p: &str) -> (r: bool)
    ensures
        r == spec_starts_with(s@, p@),
{
    let slen = s.unicode_len();
    let plen = p.unicode_len();
    if slen < plen {
        return false;
    }
    let mut i: usize = 0;
    while i < plen
        invariant
            i <= plen,
            forall|j: int| 0 <= j < i ==> s@[j] == p@[j],
        decreases plen - i,
    {
        if s.get_char(i) != p.get_char(i) {
            return false;
        }
        i += 1;
    }
    proof {
        assert(s@.subrange(0, p@.len() as int) =~= p@);
    }
    true
}

/// The merged-in branch name that the ordered patterns extract from a
/// merge-commit summary: the first pattern whose single capture group
/// matches wins.
pub open spec fn spec_parse_merge_summary(patterns: Seq<Seq<char>>, summary: Seq<char>) -> Option<
    Seq<char>,
>
    decreases patterns.len(),
{
    if patterns.len() == 0 {
        None
    } else {
        match regex_capture(patterns[0], summary) {
            Some(name) => Some(name),
            None => spec_parse_merge_summary(patterns.skip(1), summary),
        }
    }
}

/// Tries to extract the name of a merged-in branch from the merge commit summary.
pub fn parse_merge_summary(summary: &str, patterns: &MergePatterns) -> (r: Option<String>)
    ensures
        match r {
            Some(name) => spec_parse_merge_summary(patterns.patterns@.map_values(|p: String| p@), summary@)
                == Some(name@),
            None => spec_parse_merge_summary(patterns.patterns@.map_values(|p: String| p@), summary@)
                is None,
        },
{
    let ghost pats = patterns.patterns@.map_values(|p: String| p@);
    let n = patterns.patterns.len();
    proof {
        assert(pats.skip(0) =~= pats);
    }
    let mut i: usize = 0;
    while i < n
        invariant
            i <= n,
            spec_parse_merge_summary(pats, summary@) == spec_parse_merge_summary(
                pats.skip(i as int),
                summary@,
            ),
        decreases n - i,
    {
        let res = pattern_capture(&patterns.patterns[i], summary);
        proof {
            assert(pats.skip(i as int)[0] == pats[i as int]);
            assert(pats.skip(i as int).skip(1) =~= pats.skip(i as int + 1));
        }
        if let Some(name) = res {
            return Some(name);
        }
        i += 1;
    }
    proof {
        assert(pats.skip(n as int) =~= Seq::<Seq<char>>::empty());
    }
    None
}

} // verus!
