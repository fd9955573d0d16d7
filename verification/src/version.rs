//! Extraction of the significant (major.minor.patch) portion of a version
//! string.
//!
//! Kernel artifacts are retired by comparing the significant portion of their
//! version against the significant version of the matching metapackage. The
//! significant portion is the leftmost occurrence of `digits '.' digits '.'
//! digits` in the version text, with each digit run taken maximally — the
//! same notion a leftmost-longest match of `[0-9]+\.[0-9]+\.[0-9]+` yields.

use vstd::prelude::*;
use vstd::string::StrSliceExecFns;
use crate::strutil::is_digit;
use crate::strutil::is_digit_char;
use crate::strutil::str_eq;

verus! {

/// Index just past the run of digits that starts at `i` (equal to `i` when
/// `s[i]` is not a digit or `i` is past the end).
pub open spec fn digit_run_end(s: Seq<char>, i: int) -> int
    decreases s.len() - i when 0 <= i <= s.len()
{
    if i >= s.len() {
        i
    } else if is_digit(s[i]) {
        digit_run_end(s, i + 1)
    } else {
        i
    }
}

pub proof fn lemma_digit_run_end_bounds(s: Seq<char>, i: int)
    requires
        0 <= i <= s.len(),
    ensures
        i <= digit_run_end(s, i) <= s.len(),
    decreases s.len() - i,
{
    if i < s.len() && is_digit(s[i]) {
        lemma_digit_run_end_bounds(s, i + 1);
    }
}

/// If a `digits '.' digits '.' digits` match begins at position `i`, the
/// index just past that match; `None` when no match begins at `i`.
pub open spec fn match_end_at(s: Seq<char>, i: int) -> Option<int> {
    if !(0 <= i < s.len()) || !is_digit(s[i]) {
        None
    } else {
        let e1 = digit_run_end(s, i);
        if e1 < s.len() && s[e1] == '.' && e1 + 1 < s.len() && is_digit(s[e1 + 1]) {
            let e2 = digit_run_end(s, e1 + 1);
            if e2 < s.len() && s[e2] == '.' && e2 + 1 < s.len() && is_digit(s[e2 + 1]) {
                Some(digit_run_end(s, e2 + 1))
            } else {
                None
            }
        } else {
            None
        }
    }
}

pub proof fn lemma_match_end_bounds(s: Seq<char>, i: int)
    requires
        match_end_at(s, i) is Some,
    ensures
        i < match_end_at(s, i)->0 <= s.len(),
{
    let e1 = digit_run_end(s, i);
    lemma_digit_run_end_bounds(s, i);
    let e2 = digit_run_end(s, e1 + 1);
    lemma_digit_run_end_bounds(s, e1 + 1);
    lemma_digit_run_end_bounds(s, e2 + 1);
}

/// Position of the leftmost match at or after `i`, if any.
pub open spec fn first_match_pos(s: Seq<char>, i: int) -> Option<int>
    decreases s.len() - i when 0 <= i <= s.len()
{
    if i >= s.len() {
        None
    } else if match_end_at(s, i) is Some {
        Some(i)
    } else {
        first_match_pos(s, i + 1)
    }
}

/// The significant (major.minor.patch) portion of a version string: the
/// leftmost match of `digits '.' digits '.' digits`, or `None` when the
/// string holds no such portion.
pub open spec fn significant_of(v: Seq<char>) -> Option<Seq<char>> {
    match first_match_pos(v, 0) {
        Some(i) => Some(v.subrange(i, match_end_at(v, i)->0)),
        None => None,
    }
}

/// Both versions have a significant portion and the portions are equal.
pub open spec fn sig_matches(a: Seq<char>, b: Seq<char>) -> bool {
    &&& significant_of(a) is Some
    &&& significant_of(b) is Some
    &&& significant_of(a)->0 == significant_of(b)->0
}

/// Scans past the digit run starting at `i`.
fn digit_run_scan(s: &str, n: usize, i: usize) -> (e: usize)
    requires
        n == s@.len(),
        i <= n,
    ensures
        i <= e <= n,
        e as int == digit_run_end(s@, i as int),
{
    let mut e = i;
    while e < n && is_digit_char(s.get_char(e))
        invariant
            n == s@.len(),
            i <= e <= n,
            digit_run_end(s@, i as int) == digit_run_end(s@, e as int),
        decreases n - e,
    {
        e = e + 1;
    }
    e
}

/// Decides whether a `digits '.' digits '.' digits` match begins at `i`, and
/// where it ends.
fn match_end_at_exec(s: &str, n: usize, i: usize) -> (r: Option<usize>)
    requires
        n == s@.len(),
        i < n,
    ensures
        match r {
            Some(e) => match_end_at(s@, i as int) == Some(e as int),
            None => match_end_at(s@, i as int) is None,
        },
{
    if !is_digit_char(s.get_char(i)) {
        return None;
    }
    let e1 = digit_run_scan(s, n, i);
    if e1 >= n {
        return None;
    }
    if s.get_char(e1) != '.' {
        return None;
    }
    if e1 + 1 >= n {
        return None;
    }
    if !is_digit_char(s.get_char(e1 + 1)) {
        return None;
    }
    let e2 = digit_run_scan(s, n, e1 + 1);
    if e2 >= n {
        return None;
    }
    if s.get_char(e2) != '.' {
        return None;
    }
    if e2 + 1 >= n {
        return None;
    }
    if !is_digit_char(s.get_char(e2 + 1)) {
        return None;
    }
    let e3 = digit_run_scan(s, n, e2 + 1);
    Some(e3)
}

/// The significant (major.minor.patch) portion of a version string.
pub fn significant_version(v: &str) -> (r: Option<String>)
    ensures
        match r {
            Some(sv) => significant_of(v@) is Some && sv@ == significant_of(v@)->0,
            None => significant_of(v@) is None,
        },
{
    let n = v.unicode_len();
    let mut i: usize = 0;
    while i < n
        invariant
            n == v@.len(),
            i <= n,
            first_match_pos(v@, 0) == first_match_pos(v@, i as int),
        decreases n - i,
    {
        match match_end_at_exec(v, n, i) {
            Some(e) => {
                proof {
                    lemma_match_end_bounds(v@, i as int);
                }
                let sub = v.substring_char(i, e);
                return Some(sub.to_owned());
            }
            None => {
                i = i + 1;
            }
        }
    }
    None
}

/// Whether the significant portions of the two version strings both exist
/// and are equal.
pub fn significant_matches(a: &str, b: &str) -> (r: bool)
    ensures
        r == sig_matches(a@, b@),
{
    let sa = significant_version(a);
    let sb = significant_version(b);
    match (sa, sb) {
        (Some(x), Some(y)) => str_eq(x.as_str(), y.as_str()),
        _ => false,
    }
}

} // verus!
