//! The line-oriented ledger parser: comment stripping, the date-line
//! and time-allocation-line grammars, and the file-level state machine
//! that builds day entries and collects warnings.

use vstd::prelude::*;
use crate::error::Error;
use crate::model::{
    Date, DayEntry, Project, ProjectTimes, Time, TimeRange, group_val, date_valid_spec,
    time_valid_spec, first_time_pattern,
};
use crate::text;

verus! {

broadcast use vstd::string::group_string_axioms;

// --- character classes of the grammar ---

/// Lower-case letters, the only characters a client name may hold.
pub open spec fn is_lower(c: char) -> bool {
    'a' as u32 <= c as u32 && c as u32 <= 'z' as u32
}

pub open spec fn is_alpha(c: char) -> bool {
    ('a' as u32 <= c as u32 && c as u32 <= 'z' as u32)
        || ('A' as u32 <= c as u32 && c as u32 <= 'Z' as u32)
}

/// The characters a project code or subcode may hold: letters, digits,
/// space, hyphen and slash.
pub open spec fn is_label_char(c: char) -> bool {
    is_alpha(c) || text::is_digit(c) || c == ' ' || c == '-' || c == '/'
}

fn is_lower_exec(c: char) -> (r: bool)
    ensures
        r == is_lower(c),
{
    let u = c as u32;
    97 <= u && u <= 122
}

fn is_alpha_exec(c: char) -> (r: bool)
    ensures
        r == is_alpha(c),
{
    let u = c as u32;
    (97 <= u && u <= 122) || (65 <= u && u <= 90)
}

fn is_label_char_exec(c: char) -> (r: bool)
    ensures
        r == is_label_char(c),
{
    is_alpha_exec(c) || text::is_digit_char(c) || c == ' ' || c == '-' || c == '/'
}

// --- maximal character runs ---

/// End of the maximal run of characters satisfying `lower` (or the
/// other classes below) that starts at `i`.
pub open spec fn lower_run_end(s: Seq<char>, i: int) -> int
    decreases s.len() - i,
{
    if 0 <= i < s.len() && is_lower(s[i]) {
        lower_run_end(s, i + 1)
    } else {
        i
    }
}

pub open spec fn label_run_end(s: Seq<char>, i: int) -> int
    decreases s.len() - i,
{
    if 0 <= i < s.len() && is_label_char(s[i]) {
        label_run_end(s, i + 1)
    } else {
        i
    }
}

pub open spec fn alpha_run_end(s: Seq<char>, i: int) -> int
    decreases s.len() - i,
{
    if 0 <= i < s.len() && is_alpha(s[i]) {
        alpha_run_end(s, i + 1)
    } else {
        i
    }
}

pub open spec fn space_run_end(s: Seq<char>, i: int) -> int
    decreases s.len() - i,
{
    if 0 <= i < s.len() && s[i] == ' ' {
        space_run_end(s, i + 1)
    } else {
        i
    }
}

proof fn lemma_run_end_bounds(s: Seq<char>, i: int)
    requires
        0 <= i <= s.len(),
    ensures
        i <= lower_run_end(s, i) <= s.len(),
        i <= label_run_end(s, i) <= s.len(),
        i <= alpha_run_end(s, i) <= s.len(),
        i <= space_run_end(s, i) <= s.len(),
    decreases s.len() - i,
{
    if i < s.len() {
        lemma_run_end_bounds(s, i + 1);
    }
}

/// Finds the end of the maximal lower-case run starting at `i`.
fn scan_lower_run(v: &Vec<char>, i: usize) -> (r: usize)
    requires
        i <= v@.len(),
    ensures
        r == lower_run_end(v@, i as int),
        i <= r <= v@.len(),
{
    let mut j = i;
    while j < v.len() && is_lower_exec(v[j])
        invariant
            i <= j <= v@.len(),
            lower_run_end(v@, i as int) == lower_run_end(v@, j as int),
        decreases v@.len() - j,
    {
        j = j + 1;
    }
    proof {
        lemma_run_end_bounds(v@, i as int);
    }
    j
}

fn scan_label_run(v: &Vec<char>, i: usize) -> (r: usize)
    requires
        i <= v@.len(),
    ensures
        r == label_run_end(v@, i as int),
        i <= r <= v@.len(),
{
    let mut j = i;
    while j < v.len() && is_label_char_exec(v[j])
        invariant
            i <= j <= v@.len(),
            label_run_end(v@, i as int) == label_run_end(v@, j as int),
        decreases v@.len() - j,
    {
        j = j + 1;
    }
    proof {
        lemma_run_end_bounds(v@, i as int);
    }
    j
}

fn scan_alpha_run(v: &Vec<char>, i: usize) -> (r: usize)
    requires
        i <= v@.len(),
    ensures
        r == alpha_run_end(v@, i as int),
        i <= r <= v@.len(),
{
    let mut j = i;
    while j < v.len() && is_alpha_exec(v[j])
        invariant
            i <= j <= v@.len(),
            alpha_run_end(v@, i as int) == alpha_run_end(v@, j as int),
        decreases v@.len() - j,
    {
        j = j + 1;
    }
    proof {
        lemma_run_end_bounds(v@, i as int);
    }
    j
}

fn scan_space_run(v: &Vec<char>, i: usize) -> (r: usize)
    requires
        i <= v@.len(),
    ensures
        r == space_run_end(v@, i as int),
        i <= r <= v@.len(),
{
    let mut j = i;
    while j < v.len() && v[j] == ' '
        invariant
            i <= j <= v@.len(),
            space_run_end(v@, i as int) == space_run_end(v@, j as int),
        decreases v@.len() - j,
    {
        j = j + 1;
    }
    proof {
        lemma_run_end_bounds(v@, i as int);
    }
    j
}

// --- comment stripping ---

/// A comment marker `--` sits at `i`.
pub open spec fn dashes_at(s: Seq<char>, i: int) -> bool {
    0 <= i && i + 2 <= s.len() && s[i] == '-' && s[i + 1] == '-'
}

pub open spec fn has_dashes(s: Seq<char>) -> bool {
    exists|i: int| dashes_at(s, i)
}

/// Position of the last comment marker (meaningful when one exists).
pub open spec fn last_dashes(s: Seq<char>) -> int {
    choose|i: int| dashes_at(s, i) && forall|j: int| i < j ==> !dashes_at(s, j)
}

/// What one stripping round leaves: everything before the last `--`,
/// trimmed.  Rounds repeat until no marker remains, as the ledger
/// grammar asks.
pub open spec fn remove_comments_spec(s: Seq<char>) -> Seq<char>
    decreases s.len(),
    via remove_comments_spec_decreases
{
    if has_dashes(s) {
        remove_comments_spec(text::trim_spec(s.take(last_dashes(s))))
    } else {
        s
    }
}

#[via_fn]
proof fn remove_comments_spec_decreases(s: Seq<char>) {
    if has_dashes(s) {
        lemma_last_dashes_exists(s);
        let i = last_dashes(s);
        text::lemma_trim_spec_len(s.take(i));
    }
}

proof fn lemma_last_dashes_exists(s: Seq<char>)
    requires
        has_dashes(s),
    ensures
        dashes_at(s, last_dashes(s)),
        forall|j: int| last_dashes(s) < j ==> !dashes_at(s, j),
        0 <= last_dashes(s) <= s.len() - 2,
{
    let w = choose|i: int| dashes_at(s, i);
    lemma_last_dashes_from(s, w);
}

proof fn lemma_last_dashes_from(s: Seq<char>, w: int)
    requires
        dashes_at(s, w),
    ensures
        dashes_at(s, last_dashes(s)),
        forall|j: int| last_dashes(s) < j ==> !dashes_at(s, j),
        last_dashes(s) >= w,
    decreases s.len() - w,
{
    if exists|j: int| j > w && dashes_at(s, j) {
        let j = choose|j: int| j > w && dashes_at(s, j);
        lemma_last_dashes_from(s, j);
    } else {
        assert(dashes_at(s, w) && forall|j: int| w < j ==> !dashes_at(s, j));
        let i = last_dashes(s);
        assert(dashes_at(s, i) && forall|j: int| i < j ==> !dashes_at(s, j));
        if i < w {
            assert(!dashes_at(s, w));
        }
    }
}

/// Finds the last `--` in `v`, if any.
fn find_last_dashes(v: &Vec<char>) -> (r: Option<usize>)
    ensures
        r matches Some(i) ==> dashes_at(v@, i as int) && i as int == last_dashes(v@),
        r is None ==> !has_dashes(v@),
{
    let n = v.len();
    let mut i = n;
    while i > 0
        invariant
            i <= n,
            n == v@.len(),
            forall|j: int| i <= j ==> !dashes_at(v@, j),
        decreases i,
    {
        i = i - 1;
        if n - i >= 2 && v[i] == '-' && v[i + 1] == '-' {
            proof {
                assert(dashes_at(v@, i as int));
                lemma_last_dashes_from(v@, i as int);
                let l = last_dashes(v@);
                if l > i as int {
                    assert(!dashes_at(v@, l));
                }
            }
            return Some(i);
        }
        proof {
            if i + 2 <= n {
                assert(!dashes_at(v@, i as int));
            }
        }
    }
    proof {
        assert forall|j: int| !dashes_at(v@, j) by {
            if 0 <= j && j + 2 <= n {
                assert(!dashes_at(v@, j));
            }
        }
    }
    None
}

/// Strips `--` comments, repeatedly, and trims the remainder; a line
/// with no comment marker is returned unchanged.
pub fn remove_comments(source: &str) -> (r: String)
    ensures
        r@ == remove_comments_spec(source@),
{
    let mut current: Vec<char> = text::to_chars(source);
    loop
        invariant
            remove_comments_spec(current@) == remove_comments_spec(source@),
        decreases current@.len(),
    {
        match find_last_dashes(&current) {
            None => {
                return text::from_chars(&current);
            }
            Some(i) => {
                proof {
                    lemma_last_dashes_exists(current@);
                    text::lemma_trim_spec_len(current@.take(i as int));
                }
                let mut prefix: Vec<char> = Vec::new();
                let mut k: usize = 0;
                while k < i
                    invariant
                        k <= i,
                        i < current@.len(),
                        prefix@ == current@.subrange(0, k as int),
                    decreases i - k,
                {
                    prefix.push(current[k]);
                    k = k + 1;
                    proof {
                        assert(prefix@ =~= current@.subrange(0, k as int));
                    }
                }
                proof {
                    assert(prefix@ =~= current@.take(i as int));
                }
                current = text::trim_chars(&prefix);
            }
        }
    }
}

// --- the time-allocation label grammar ---

/// Where the pieces of a `client,code[,subcode]:` label sit in a line.
pub struct LabelShape {
    pub client_end: int,
    pub code_end: int,
    pub has_subcode: bool,
    pub subcode_end: int,
    pub times_start: int,
}

/// Reads a label off the front of the line: a non-empty lower-case
/// client, a comma, a non-empty code, an optional comma and subcode,
/// and a colon; the times text starts after the colon and any spaces.
pub open spec fn label_shape(s: Seq<char>) -> Option<LabelShape> {
    let ce = lower_run_end(s, 0);
    if ce < 1 || ce >= s.len() || s[ce] != ',' {
        None
    } else {
        let p1 = label_run_end(s, ce + 1);
        if p1 == ce + 1 {
            None
        } else if p1 < s.len() && s[p1] == ':' {
            Some(LabelShape {
                client_end: ce,
                code_end: p1,
                has_subcode: false,
                subcode_end: p1,
                times_start: space_run_end(s, p1 + 1),
            })
        } else if p1 < s.len() && s[p1] == ',' {
            let p2 = label_run_end(s, p1 + 1);
            if p2 == p1 + 1 {
                None
            } else if p2 < s.len() && s[p2] == ':' {
                Some(LabelShape {
                    client_end: ce,
                    code_end: p1,
                    has_subcode: true,
                    subcode_end: p2,
                    times_start: space_run_end(s, p2 + 1),
                })
            } else {
                None
            }
        } else {
            None
        }
    }
}

/// Executable scan for the label; the five numbers mirror `LabelShape`.
fn scan_label(v: &Vec<char>) -> (r: Option<(usize, usize, bool, usize, usize)>)
    ensures
        r matches Some((ce, p1, has_sub, p2, ts)) ==> (label_shape(v@) matches Some(sh)
            && sh.client_end == ce && sh.code_end == p1 && sh.has_subcode == has_sub
            && sh.subcode_end == p2 && sh.times_start == ts
            && 1 <= ce < p1 <= p2 < ts <= v@.len()
            && ce < v@.len() && p1 < v@.len() && p2 < v@.len()),
        r is None ==> label_shape(v@) is None,
{
    let n = v.len();
    let ce = scan_lower_run(v, 0);
    if ce < 1 || ce >= n || v[ce] != ',' {
        return None;
    }
    let p1 = scan_label_run(v, ce + 1);
    if p1 == ce + 1 {
        return None;
    }
    if p1 < n && v[p1] == ':' {
        let ts = scan_space_run(v, p1 + 1);
        return Some((ce, p1, false, p1, ts));
    }
    if p1 < n && v[p1] == ',' {
        let p2 = scan_label_run(v, p1 + 1);
        if p2 == p1 + 1 {
            return None;
        }
        if p2 < n && v[p2] == ':' {
            let ts = scan_space_run(v, p2 + 1);
            return Some((ce, p1, true, p2, ts));
        }
        return None;
    }
    None
}

/// Whether the line is a time-allocation line (whatever its times).
pub fn is_time_line(line: &str) -> (r: bool)
    ensures
        r == (label_shape(line@) is Some),
{
    let v = text::to_chars(line);
    scan_label(&v).is_some()
}

/// Whether the line is a label with nothing after the colon.
pub fn is_empty_time_line(line: &str) -> (r: bool)
    ensures
        r == (label_shape(line@) matches Some(sh) && sh.times_start == line@.len()),
{
    let v = text::to_chars(line);
    match scan_label(&v) {
        Some((_, _, _, _, ts)) => ts == v.len(),
        None => false,
    }
}

// --- the times-list grammar ---

/// A complete `HHMM-HHMM` unit sits at `p`.
pub open spec fn unit_at(s: Seq<char>, p: int) -> bool {
    0 <= p && p + 9 <= s.len() && crate::model::time_pattern_at(s, p) && s[p + 4] == '-'
        && crate::model::time_pattern_at(s, p + 5)
}

/// The first `k` units are complete and comma-separated.
pub open spec fn units_ok(s: Seq<char>, k: int) -> bool {
    (forall|u: int| 0 <= u < k ==> #[trigger] unit_at(s, 10 * u))
        && (forall|u: int| 1 <= u < k ==> #[trigger] s[10 * u - 1] == ',')
}

/// The shape of a whole times list: the number of complete units and
/// whether a dangling `HHMM-` closes it.
pub open spec fn times_list_shape(s: Seq<char>) -> Option<(int, bool)> {
    let n = s.len() as int;
    if n % 10 == 9 {
        let k = (n + 1) / 10;
        if units_ok(s, k) { Some((k, false)) } else { None }
    } else if n % 10 == 5 {
        let k = (n - 5) / 10;
        if units_ok(s, k) && (k == 0 || s[10 * k - 1] == ',')
            && crate::model::time_pattern_at(s, 10 * k) && s[10 * k + 4] == '-' {
            Some((k, true))
        } else {
            None
        }
    } else {
        None
    }
}

/// The four digit groups of unit `u`, as hour and minute values.
pub open spec fn unit_h1(s: Seq<char>, u: int) -> int { group_val(s, 10 * u, 2) }

pub open spec fn unit_m1(s: Seq<char>, u: int) -> int { group_val(s, 10 * u + 2, 2) }

pub open spec fn unit_h2(s: Seq<char>, u: int) -> int { group_val(s, 10 * u + 5, 2) }

pub open spec fn unit_m2(s: Seq<char>, u: int) -> int { group_val(s, 10 * u + 7, 2) }

pub open spec fn unit_from(s: Seq<char>, u: int) -> int {
    unit_h1(s, u) * 60 + unit_m1(s, u)
}

pub open spec fn unit_to(s: Seq<char>, u: int) -> int {
    unit_h2(s, u) * 60 + unit_m2(s, u)
}

/// Both times of unit `u` pass validation.
pub open spec fn unit_times_ok(s: Seq<char>, u: int) -> bool {
    time_valid_spec(unit_h1(s, u), unit_m1(s, u))
        && time_valid_spec(unit_h2(s, u), unit_m2(s, u))
}

/// Unit `u` is semantically valid: good times, running forward.
pub open spec fn unit_ok(s: Seq<char>, u: int) -> bool {
    unit_times_ok(s, u) && unit_from(s, u) < unit_to(s, u)
}

/// The range values the units of a shaped times list stand for.
pub open spec fn unit_ranges(s: Seq<char>, k: int) -> Seq<TimeRange> {
    Seq::new(k as nat, |u: int| crate::model::range_value(unit_from(s, u), unit_to(s, u)))
}

/// Checks that the first `k` units are complete and comma-separated.
fn check_units(v: &Vec<char>, k: usize) -> (r: bool)
    requires
        10 * k <= v@.len() + 1,
    ensures
        r == units_ok(v@, k as int),
{
    let n = v.len();
    let mut u: usize = 0;
    while u < k
        invariant
            u <= k,
            n == v@.len(),
            10 * k <= n + 1,
            forall|w: int| 0 <= w < u ==> #[trigger] unit_at(v@, 10 * w),
            forall|w: int| 1 <= w < u ==> #[trigger] v@[10 * w - 1] == ',',
        decreases k - u,
    {
        let p = 10 * u;
        if u >= 1 && v[p - 1] != ',' {
            return false;
        }
        let c0 = text::is_digit_char(v[p]) && text::is_digit_char(v[p + 1])
            && text::is_digit_char(v[p + 2]) && text::is_digit_char(v[p + 3]);
        let c1 = v[p + 4] == '-';
        let c2 = text::is_digit_char(v[p + 5]) && text::is_digit_char(v[p + 6])
            && text::is_digit_char(v[p + 7]) && text::is_digit_char(v[p + 8]);
        if !(c0 && c1 && c2) {
            proof {
                assert(!unit_at(v@, 10 * u as int));
            }
            return false;
        }
        proof {
            assert(unit_at(v@, 10 * u as int));
        }
        u = u + 1;
    }
    true
}

/// Parses a comma-separated list of `HHMM-HHMM` tokens, optionally
/// closed by one dangling `HHMM-`, which is excluded from the result;
/// the boolean reports that a dangling token was present.
pub fn parse_time_ranges(time_range_str: &str) -> (r: Result<(Vec<TimeRange>, bool), Error>)
    ensures
        times_list_shape(time_range_str@) is None ==> (r matches Err(e)
            && e matches Error::InvalidTimeRanges { text } && text@ == time_range_str@),
        times_list_shape(time_range_str@) matches Some((k, inc)) ==> {
            let s = time_range_str@;
            &&& (r is Ok <==> forall|u: int| 0 <= u < k ==> unit_ok(s, u))
            &&& (r matches Ok((ranges, incomplete)) ==> incomplete == inc
                && ranges@ == unit_ranges(s, k)
                && ranges@.len() == k
                && forall|u: int| 0 <= u < k
                    ==> (#[trigger] ranges@[u]).spec_from() == unit_from(s, u)
                        && ranges@[u].spec_to() == unit_to(s, u))
            &&& (r matches Err(e) ==> exists|u: int| #![trigger unit_ok(s, u)]
                0 <= u < k && !unit_ok(s, u)
                && (forall|w: int| 0 <= w < u ==> unit_ok(s, w))
                && ((e is InvalidTime) <==> !unit_times_ok(s, u))
                && ((e is OutOfOrderTimeRange) <==> (unit_times_ok(s, u)
                    && unit_from(s, u) >= unit_to(s, u))))
        },
{
    let v = text::to_chars(time_range_str);
    let n = v.len();
    let mut k: usize = 0;
    let mut incomplete = false;
    let mut shape_ok = false;
    if n % 10 == 9 {
        k = n / 10 + 1;
        incomplete = false;
        shape_ok = check_units(&v, k);
    } else if n % 10 == 5 {
        k = (n - 5) / 10;
        incomplete = true;
        shape_ok = check_units(&v, k);
        if shape_ok && k >= 1 && v[10 * k - 1] != ',' {
            shape_ok = false;
        } else if shape_ok {
            let p = 10 * k;
            let c0 = text::is_digit_char(v[p]) && text::is_digit_char(v[p + 1])
                && text::is_digit_char(v[p + 2]) && text::is_digit_char(v[p + 3]);
            if !(c0 && v[p + 4] == '-') {
                shape_ok = false;
            }
        }
    }
    if !shape_ok {
        proof {
            assert(times_list_shape(time_range_str@) is None);
        }
        return Err(Error::InvalidTimeRanges { text: time_range_str.to_owned() });
    }
    let ghost s = time_range_str@;
    proof {
        assert(times_list_shape(s) == Some((k as int, incomplete)));
    }
    let mut ranges: Vec<TimeRange> = Vec::new();
    let mut u: usize = 0;
    while u < k
        invariant
            u <= k,
            v@ == s,
            s == time_range_str@,
            n == s.len(),
            10 * k <= n + 1,
            units_ok(s, k as int),
            times_list_shape(s) == Some((k as int, incomplete)),
            ranges@.len() == u,
            forall|w: int| 0 <= w < u ==> unit_ok(s, w),
            forall|w: int| 0 <= w < u
                ==> (#[trigger] ranges@[w]).spec_from() == unit_from(s, w)
                    && ranges@[w].spec_to() == unit_to(s, w)
                    && ranges@[w] == crate::model::range_value(
                        unit_from(s, w), unit_to(s, w)),
        decreases k - u,
    {
        let p = 10 * u;
        proof {
            assert(unit_at(s, 10 * u as int));
        }
        let h1 = crate::model::two_digit_value(&v, p);
        let m1 = crate::model::two_digit_value(&v, p + 2);
        let h2 = crate::model::two_digit_value(&v, p + 5);
        let m2 = crate::model::two_digit_value(&v, p + 7);
        let from = match Time::new(h1, m1) {
            Ok(t) => t,
            Err(e) => {
                proof {
                    assert(!unit_ok(s, u as int));
                }
                return Err(e);
            }
        };
        let to = match Time::new(h2, m2) {
            Ok(t) => t,
            Err(e) => {
                proof {
                    assert(!unit_ok(s, u as int));
                }
                return Err(e);
            }
        };
        match TimeRange::new(from, to) {
            Ok(tr) => {
                ranges.push(tr);
            }
            Err(e) => {
                proof {
                    assert(unit_times_ok(s, u as int));
                    assert(!unit_ok(s, u as int));
                }
                return Err(e);
            }
        }
        u = u + 1;
    }
    proof {
        assert(ranges@ =~= unit_ranges(s, k as int));
    }
    Ok((ranges, incomplete))
}

/// Delegates to `Time::parse`: the first four-digit run, read `HHMM`.
pub fn parse_time(hhmm: &str) -> (r: Result<Time, Error>)
    ensures
        r is Ok <==> exists|i: int| #[trigger] first_time_pattern(hhmm@, i)
            && time_valid_spec(group_val(hhmm@, i, 2), group_val(hhmm@, i + 2, 2)),
        r matches Ok(t) ==> exists|i: int| #[trigger] first_time_pattern(hhmm@, i)
            && t.spec_minute_of_day()
                == group_val(hhmm@, i, 2) * 60 + group_val(hhmm@, i + 2, 2),
{
    Time::parse(hhmm)
}

/// `i` is the first position where a complete `HHMM-HHMM` unit starts.
pub open spec fn first_unit_pattern(s: Seq<char>, i: int) -> bool {
    unit_at(s, i) && forall|j: int| 0 <= j < i ==> !unit_at(s, j)
}

/// Reads the first `HHMM-HHMM` unit found anywhere in `text`.
pub fn parse_time_range(text: &str) -> (r: Result<TimeRange, Error>)
    ensures
        r is Ok <==> exists|i: int| #[trigger] first_unit_pattern(text@, i)
            && time_valid_spec(group_val(text@, i, 2), group_val(text@, i + 2, 2))
            && time_valid_spec(group_val(text@, i + 5, 2), group_val(text@, i + 7, 2))
            && group_val(text@, i, 2) * 60 + group_val(text@, i + 2, 2)
                < group_val(text@, i + 5, 2) * 60 + group_val(text@, i + 7, 2),
        r matches Ok(t) ==> exists|i: int| #[trigger] first_unit_pattern(text@, i)
            && t.spec_from() == group_val(text@, i, 2) * 60 + group_val(text@, i + 2, 2)
            && t.spec_to() == group_val(text@, i + 5, 2) * 60 + group_val(text@, i + 7, 2),
        r matches Err(e) ==> {
            &&& !(exists|i: int| #[trigger] first_unit_pattern(text@, i))
                ==> (e matches Error::InvalidTimeRange { text: t } && t@ == text@)
            &&& (exists|i: int| #[trigger] first_unit_pattern(text@, i))
                ==> (e is InvalidTime || e is OutOfOrderTimeRange)
        },
{
    let v = text::to_chars(text);
    let n: usize = v.len();
    let mut i: usize = 0;
    while 9 <= n && i <= n - 9
        invariant
            n == text@.len(),
            v@ == text@,
            i <= n,
            forall|j: int| 0 <= j < i ==> !unit_at(text@, j),
        decreases n - i,
    {
        let hit = text::is_digit_char(v[i]) && text::is_digit_char(v[i + 1])
            && text::is_digit_char(v[i + 2]) && text::is_digit_char(v[i + 3])
            && v[i + 4] == '-'
            && text::is_digit_char(v[i + 5]) && text::is_digit_char(v[i + 6])
            && text::is_digit_char(v[i + 7]) && text::is_digit_char(v[i + 8]);
        if hit {
            proof {
                assert(unit_at(text@, i as int));
                assert(first_unit_pattern(text@, i as int));
                assert forall|i2: int| #[trigger] first_unit_pattern(text@, i2)
                    implies i2 == i as int by {
                    if i2 < i as int {
                        assert(unit_at(text@, i2));
                    } else if i2 > i as int {
                        assert(!unit_at(text@, i as int));
                    }
                }
            }
            let h1 = crate::model::two_digit_value(&v, i);
            let m1 = crate::model::two_digit_value(&v, i + 2);
            let h2 = crate::model::two_digit_value(&v, i + 5);
            let m2 = crate::model::two_digit_value(&v, i + 7);
            let from = match Time::new(h1, m1) {
                Ok(t) => t,
                Err(e) => {
                    return Err(e);
                }
            };
            let to = match Time::new(h2, m2) {
                Ok(t) => t,
                Err(e) => {
                    return Err(e);
                }
            };
            return TimeRange::new(from, to);
        }
        i = i + 1;
    }
    proof {
        assert forall|j: int| !first_unit_pattern(text@, j) by {
            if unit_at(text@, j) {
                assert(0 <= j && j + 9 <= n);
                assert(!unit_at(text@, j));
            }
        }
    }
    Err(Error::InvalidTimeRange { text: text.to_owned() })
}

// --- the date-line grammar ---

/// Where the ten-character date group of a `Date:` line starts: the
/// line is `Date: `, a word of letters, one space and `MM/DD/YYYY`.
pub open spec fn date_line_shape(s: Seq<char>) -> Option<int> {
    if s.len() >= 6 && s.subrange(0, 6) == "Date: "@ {
        let w = alpha_run_end(s, 6);
        if w > 6 && w < s.len() && s[w] == ' ' && s.len() == w + 11
            && crate::model::date_pattern_at(s, w + 1) {
            Some(w + 1)
        } else {
            None
        }
    } else {
        None
    }
}

/// Executable scan for the date-line shape.
fn scan_date_line(v: &Vec<char>) -> (r: Option<usize>)
    ensures
        r matches Some(ds) ==> date_line_shape(v@) == Some(ds as int)
            && ds as int + 10 == v@.len() && crate::model::date_pattern_at(v@, ds as int),
        r is None ==> date_line_shape(v@) is None,
{
    let n = v.len();
    if n < 6 {
        return None;
    }
    let prefix = text::sub_chars(v, 0, 6);
    if !text::str_eq_chars("Date: ", &prefix) {
        return None;
    }
    let w = scan_alpha_run(v, 6);
    if w > 6 && w < n && v[w] == ' ' && n - w == 11 {
        let ds = w + 1;
        let ok = text::is_digit_char(v[ds]) && text::is_digit_char(v[ds + 1])
            && v[ds + 2] == '/'
            && text::is_digit_char(v[ds + 3]) && text::is_digit_char(v[ds + 4])
            && v[ds + 5] == '/'
            && text::is_digit_char(v[ds + 6]) && text::is_digit_char(v[ds + 7])
            && text::is_digit_char(v[ds + 8]) && text::is_digit_char(v[ds + 9]);
        if ok {
            proof {
                assert(crate::model::date_pattern_at(v@, ds as int));
            }
            return Some(ds);
        }
        return None;
    }
    None
}

/// Whether the line is a date line.
pub fn is_date_line(line: &str) -> (r: bool)
    ensures
        r == (date_line_shape(line@) is Some),
{
    let v = text::to_chars(line);
    scan_date_line(&v).is_some()
}

/// The month, day and year carried by a shaped date line.
pub open spec fn date_line_month(s: Seq<char>, ds: int) -> int { group_val(s, ds, 2) }

pub open spec fn date_line_day(s: Seq<char>, ds: int) -> int { group_val(s, ds + 3, 2) }

pub open spec fn date_line_year(s: Seq<char>, ds: int) -> int { group_val(s, ds + 6, 4) }

/// Parses a `Date: <Weekday> MM/DD/YYYY` line.
pub fn parse_date_line(line: &str) -> (r: Result<Date, Error>)
    ensures
        date_line_shape(line@) is None ==> (r matches Err(e)
            && e matches Error::InvalidDateLine { text } && text@ == line@),
        date_line_shape(line@) matches Some(ds) ==> {
            &&& (r is Ok <==> date_valid_spec(
                date_line_year(line@, ds), date_line_month(line@, ds),
                date_line_day(line@, ds)))
            &&& (r matches Ok(d) ==> d.spec_year() == date_line_year(line@, ds)
                && d.spec_month() == date_line_month(line@, ds)
                && d.spec_day() == date_line_day(line@, ds)
                && d == crate::model::date_value(date_line_year(line@, ds),
                    date_line_month(line@, ds), date_line_day(line@, ds)))
            &&& (r matches Err(e) ==> e is InvalidDate)
        },
{
    let v = text::to_chars(line);
    match scan_date_line(&v) {
        None => Err(Error::InvalidDateLine { text: line.to_owned() }),
        Some(ds) => {
            let n = v.len();
            proof {
                assert(ds as int + 10 == n as int);
            }
            let m = crate::model::two_digit_value(&v, ds);
            let d = crate::model::two_digit_value(&v, ds + 3);
            let y = crate::model::four_digit_value(&v, ds + 6);
            Date::new(y, m as u8, d as u8)
        }
    }
}

/// `parse_date_line`, with failures folded into `None`.
pub fn try_parse_date_line(line: &str) -> (r: Option<Date>)
    ensures
        r is Some <==> (date_line_shape(line@) matches Some(ds)
            && date_valid_spec(date_line_year(line@, ds), date_line_month(line@, ds),
                date_line_day(line@, ds))),
        r matches Some(d) ==> (date_line_shape(line@) matches Some(ds)
            && d.spec_year() == date_line_year(line@, ds)
            && d.spec_month() == date_line_month(line@, ds)
            && d.spec_day() == date_line_day(line@, ds)),
{
    match parse_date_line(line) {
        Ok(d) => Some(d),
        Err(_) => None,
    }
}

// --- time-allocation lines ---

/// The times text of a shaped label line.
pub open spec fn times_of_line(line: Seq<char>, sh: LabelShape) -> Seq<char> {
    line.subrange(sh.times_start, line.len() as int)
}

/// The subcode text of a shaped label line, empty when absent.
pub open spec fn subcode_of_line(line: Seq<char>, sh: LabelShape) -> Seq<char> {
    if sh.has_subcode {
        line.subrange(sh.code_end + 1, sh.subcode_end)
    } else {
        Seq::<char>::empty()
    }
}

/// Parses `client,code[,subcode]: <times>` into a `ProjectTimes` and a
/// flag reporting a dangling `HHMM-` tail.
pub fn parse_time_line(line: &str) -> (r: Result<(ProjectTimes, bool), Error>)
    ensures
        label_shape(line@) is None ==> (r matches Err(e)
            && e matches Error::InvalidTimeLine { text } && text@ == line@),
        label_shape(line@) matches Some(sh) ==> {
            let times = times_of_line(line@, sh);
            &&& (times_list_shape(times) is None ==> (r matches Err(e)
                && e is InvalidTimeRanges))
            &&& (times_list_shape(times) matches Some((k, inc)) ==> {
                &&& (r is Ok <==> (forall|u: int| 0 <= u < k ==> unit_ok(times, u))
                    && !crate::model::has_conflict(unit_ranges(times, k)))
                &&& (r matches Ok((pt, incomplete)) ==> incomplete == inc
                    && pt.spec_project().spec_client() == line@.subrange(0, sh.client_end)
                    && pt.spec_project().spec_code()
                        == line@.subrange(sh.client_end + 1, sh.code_end)
                    && pt.spec_project().spec_subcode() == subcode_of_line(line@, sh)
                    && pt.spec_ranges().to_multiset() == unit_ranges(times, k).to_multiset()
                    && crate::model::ranges_sorted_distinct(pt.spec_ranges()))
                &&& (r matches Err(e) ==> {
                    &&& ((exists|u: int| 0 <= u < k && !(#[trigger] unit_ok(times, u)))
                        ==> (e is InvalidTime || e is OutOfOrderTimeRange)
                            && ((e is InvalidTime) <==> !unit_times_ok(
                                times, first_bad_unit(times, k, 0))))
                    &&& ((forall|u: int| 0 <= u < k ==> #[trigger] unit_ok(times, u))
                        ==> e is ConflictingTimeRanges)
                })
            })
        },
{
    let v = text::to_chars(line);
    match scan_label(&v) {
        None => Err(Error::InvalidTimeLine { text: line.to_owned() }),
        Some((ce, p1, has_sub, p2, ts)) => {
            let client_v = text::sub_chars(&v, 0, ce);
            let code_v = text::sub_chars(&v, ce + 1, p1);
            let client = text::from_chars(&client_v);
            let code = text::from_chars(&code_v);
            let subcode = if has_sub {
                let sub_v = text::sub_chars(&v, p1 + 1, p2);
                text::from_chars(&sub_v)
            } else {
                String::new()
            };
            let times_v = text::sub_chars(&v, ts, v.len());
            let times_str = text::from_chars(&times_v);
            let ghost sh = label_shape(line@)->Some_0;
            let ghost times = times_of_line(line@, sh);
            proof {
                assert(times_str@ == times);
            }
            let (ranges, incomplete) = match parse_time_ranges(times_str.as_str()) {
                Ok(p) => p,
                Err(e) => {
                    proof {
                        if times_list_shape(times) is Some {
                            let k = times_list_shape(times)->Some_0.0;
                            let u = choose|u: int| #![trigger unit_ok(times, u)]
                                0 <= u < k && !unit_ok(times, u)
                                && (forall|w: int| 0 <= w < u ==> unit_ok(times, w))
                                && ((e is InvalidTime) <==> !unit_times_ok(times, u))
                                && ((e is OutOfOrderTimeRange) <==> (unit_times_ok(times, u)
                                    && unit_from(times, u) >= unit_to(times, u)));
                            lemma_first_bad_unit(times, k);
                            let fb = first_bad_unit(times, k, 0);
                            assert(!unit_ok(times, u));
                            if fb < u {
                                assert(unit_ok(times, fb));
                            }
                            assert(fb == u);
                        }
                    }
                    return Err(e);
                }
            };
            let project = Project::new_with_subcode(
                client.as_str(), code.as_str(), subcode.as_str());
            match ProjectTimes::new(project, &ranges) {
                Ok(pt) => Ok((pt, incomplete)),
                Err(e) => Err(e),
            }
        }
    }
}

/// Index of the first semantically bad unit, or `k` when all pass.
pub open spec fn first_bad_unit(s: Seq<char>, k: int, u: int) -> int
    decreases k - u,
{
    if u >= k {
        k
    } else if !unit_ok(s, u) {
        u
    } else {
        first_bad_unit(s, k, u + 1)
    }
}

proof fn lemma_first_bad_unit(s: Seq<char>, k: int)
    ensures
        first_bad_unit(s, k, 0) <= k || k < 0,
        k >= 0 ==> first_bad_unit(s, k, 0) >= 0,
        forall|w: int| 0 <= w < first_bad_unit(s, k, 0) && w < k
            ==> #[trigger] unit_ok(s, w),
        first_bad_unit(s, k, 0) < k ==> !unit_ok(s, first_bad_unit(s, k, 0)),
{
    lemma_first_bad_unit_from(s, k, 0);
}

proof fn lemma_first_bad_unit_from(s: Seq<char>, k: int, u: int)
    ensures
        first_bad_unit(s, k, u) <= k || k < u,
        k >= u ==> first_bad_unit(s, k, u) >= u,
        forall|w: int| u <= w < first_bad_unit(s, k, u) && w < k
            ==> #[trigger] unit_ok(s, w),
        first_bad_unit(s, k, u) < k ==> !unit_ok(s, first_bad_unit(s, k, u)),
    decreases k - u,
{
    if u < k && unit_ok(s, u) {
        lemma_first_bad_unit_from(s, k, u + 1);
    }
}

// --- warnings ---

pub open spec fn ooo_warning_spec(ln: int, prev: Date, nd: Date) -> Seq<char> {
    "out of order dates:"@ + text::dec_str(ln as nat) + ": prev='"@ + prev.text_spec()
        + "' new='"@ + nd.text_spec() + "'"@
}

pub open spec fn incomplete_time_line_warning_spec(ln: int, line: Seq<char>) -> Seq<char> {
    "incomplete time line:"@ + text::dec_str(ln as nat) + ": line: '"@ + line + "'"@
}

pub open spec fn incomplete_range_warning_spec(ln: int, date: Date, line: Seq<char>) -> Seq<char> {
    "incomplete time range:"@ + text::dec_str(ln as nat) + ": date='"@ + date.text_spec()
        + "' line='"@ + line + "'"@
}

pub open spec fn invalid_line_warning_spec(ln: int, line: Seq<char>) -> Seq<char> {
    "invalid line:"@ + text::dec_str(ln as nat) + ": line: '"@ + line + "'"@
}

fn ooo_warning(ln: u32, prev: &Date, nd: &Date) -> (r: String)
    ensures
        r@ == ooo_warning_spec(ln as int, *prev, *nd),
{
    let mut out: Vec<char> = Vec::new();
    text::push_str_chars(&mut out, "out of order dates:");
    text::push_dec_u32(&mut out, ln);
    text::push_str_chars(&mut out, ": prev='");
    let p = prev.to_text();
    text::push_str_chars(&mut out, p.as_str());
    text::push_str_chars(&mut out, "' new='");
    let q = nd.to_text();
    text::push_str_chars(&mut out, q.as_str());
    text::push_str_chars(&mut out, "'");
    proof {
        assert(out@ =~= ooo_warning_spec(ln as int, *prev, *nd));
    }
    text::from_chars(&out)
}

fn incomplete_time_line_warning(ln: u32, line: &Vec<char>) -> (r: String)
    ensures
        r@ == incomplete_time_line_warning_spec(ln as int, line@),
{
    let mut out: Vec<char> = Vec::new();
    text::push_str_chars(&mut out, "incomplete time line:");
    text::push_dec_u32(&mut out, ln);
    text::push_str_chars(&mut out, ": line: '");
    text::push_chars(&mut out, line);
    text::push_str_chars(&mut out, "'");
    proof {
        assert(out@ =~= incomplete_time_line_warning_spec(ln as int, line@));
    }
    text::from_chars(&out)
}

fn incomplete_range_warning(ln: u32, date: &Date, line: &Vec<char>) -> (r: String)
    ensures
        r@ == incomplete_range_warning_spec(ln as int, *date, line@),
{
    let mut out: Vec<char> = Vec::new();
    text::push_str_chars(&mut out, "incomplete time range:");
    text::push_dec_u32(&mut out, ln);
    text::push_str_chars(&mut out, ": date='");
    let p = date.to_text();
    text::push_str_chars(&mut out, p.as_str());
    text::push_str_chars(&mut out, "' line='");
    text::push_chars(&mut out, line);
    text::push_str_chars(&mut out, "'");
    proof {
        assert(out@ =~= incomplete_range_warning_spec(ln as int, *date, line@));
    }
    text::from_chars(&out)
}

fn invalid_line_warning(ln: u32, line: &Vec<char>) -> (r: String)
    ensures
        r@ == invalid_line_warning_spec(ln as int, line@),
{
    let mut out: Vec<char> = Vec::new();
    text::push_str_chars(&mut out, "invalid line:");
    text::push_dec_u32(&mut out, ln);
    text::push_str_chars(&mut out, ": line: '");
    text::push_chars(&mut out, line);
    text::push_str_chars(&mut out, "'");
    proof {
        assert(out@ =~= invalid_line_warning_spec(ln as int, line@));
    }
    text::from_chars(&out)
}

// --- the file-level state machine ---

/// One time-allocation line, as the specification sees it.
pub struct SpecAlloc {
    pub client: Seq<char>,
    pub code: Seq<char>,
    pub subcode: Seq<char>,
    pub ranges: Seq<TimeRange>,
}

/// One open or closed day, as the specification sees it.
pub struct SpecDay {
    pub date: Date,
    pub allocs: Seq<SpecAlloc>,
    pub line: int,
}

/// The parser's accumulated state.
pub struct PState {
    pub days: Seq<SpecDay>,
    pub cur: Option<SpecDay>,
    pub warnings: Seq<Seq<char>>,
}

/// Why parsing stopped fatally.
pub enum FatalKind {
    DateInvalid,
    TimeLineBeforeDate,
    TimesMalformed,
    TimeInvalid,
    RangeOrder,
    RangesOverlap,
}

/// What a run of the parser yields.
pub enum SpecOutcome {
    Fatal { kind: FatalKind, line: int },
    Finished { days: Seq<SpecDay>, warnings: Seq<Seq<char>> },
}

pub open spec fn pstate_init() -> PState {
    PState { days: Seq::empty(), cur: None, warnings: Seq::empty() }
}

/// The ledger state machine, one line at a time: date lines open a new
/// day (closing and keeping the one before), allocation lines extend
/// the open day, `END` stops at once without keeping an open day, and
/// at the end of input an open day is kept.
pub open spec fn run_parser(lv: Seq<Seq<char>>, i: int, st: PState) -> SpecOutcome
    decreases lv.len() - i,
{
    if i < 0 || i >= lv.len() {
        SpecOutcome::Finished {
            days: match st.cur {
                Some(c) => st.days.push(c),
                None => st.days,
            },
            warnings: st.warnings,
        }
    } else {
        let line = remove_comments_spec(lv[i]);
        let ln = i + 1;
        match date_line_shape(line) {
            Some(ds) => {
                let y = date_line_year(line, ds);
                let m = date_line_month(line, ds);
                let d = date_line_day(line, ds);
                if !date_valid_spec(y, m, d) {
                    SpecOutcome::Fatal { kind: FatalKind::DateInvalid, line: ln }
                } else {
                    let nd = crate::model::date_value(y, m, d);
                    let warnings1 = match st.cur {
                        Some(c) => if nd.dn() <= c.date.dn() {
                            st.warnings.push(ooo_warning_spec(ln, c.date, nd))
                        } else {
                            st.warnings
                        },
                        None => st.warnings,
                    };
                    let days1 = match st.cur {
                        Some(c) => st.days.push(c),
                        None => st.days,
                    };
                    run_parser(lv, i + 1, PState {
                        days: days1,
                        cur: Some(SpecDay { date: nd, allocs: Seq::empty(), line: ln }),
                        warnings: warnings1,
                    })
                }
            }
            None => match label_shape(line) {
                Some(sh) => if sh.times_start == line.len() {
                    run_parser(lv, i + 1, PState {
                        days: st.days,
                        cur: st.cur,
                        warnings: st.warnings.push(
                            incomplete_time_line_warning_spec(ln, line)),
                    })
                } else {
                    match st.cur {
                    None => SpecOutcome::Fatal {
                        kind: FatalKind::TimeLineBeforeDate, line: ln,
                    },
                    Some(c) => {
                        let times = times_of_line(line, sh);
                        match times_list_shape(times) {
                            None => SpecOutcome::Fatal {
                                kind: FatalKind::TimesMalformed, line: ln,
                            },
                            Some((k, inc)) => {
                                let fb = first_bad_unit(times, k, 0);
                                if fb < k {
                                    SpecOutcome::Fatal {
                                        kind: if !unit_times_ok(times, fb) {
                                            FatalKind::TimeInvalid
                                        } else {
                                            FatalKind::RangeOrder
                                        },
                                        line: ln,
                                    }
                                } else if crate::model::has_conflict(
                                    unit_ranges(times, k)) {
                                    SpecOutcome::Fatal {
                                        kind: FatalKind::RangesOverlap, line: ln,
                                    }
                                } else {
                                    let alloc = SpecAlloc {
                                        client: line.subrange(0, sh.client_end),
                                        code: line.subrange(sh.client_end + 1, sh.code_end),
                                        subcode: subcode_of_line(line, sh),
                                        ranges: unit_ranges(times, k),
                                    };
                                    let warnings1 = if inc {
                                        st.warnings.push(incomplete_range_warning_spec(
                                            ln, c.date, line))
                                    } else {
                                        st.warnings
                                    };
                                    run_parser(lv, i + 1, PState {
                                        days: st.days,
                                        cur: Some(SpecDay {
                                            date: c.date,
                                            allocs: c.allocs.push(alloc),
                                            line: c.line,
                                        }),
                                        warnings: warnings1,
                                    })
                                }
                            }
                        }
                    }
                }
                },
                None => if line == "END"@ {
                    SpecOutcome::Finished { days: st.days, warnings: st.warnings }
                } else if line.len() == 0 {
                    run_parser(lv, i + 1, st)
                } else {
                    run_parser(lv, i + 1, PState {
                        days: st.days,
                        cur: st.cur,
                        warnings: st.warnings.push(invalid_line_warning_spec(ln, line)),
                    })
                },
            },
        }
    }
}

/// A line that leaves the parser state alone apart from warnings: not
/// a date line, not `END`, and not a times-bearing allocation line.
pub open spec fn benign_line(line: Seq<char>) -> bool {
    date_line_shape(line) is None && line != "END"@
        && (match label_shape(line) {
            Some(sh) => sh.times_start == line.len(),
            None => true,
        })
}

/// A time-allocation line before any date line is always fatal, never
/// a warning: from any state with no open day, if the lines before `i`
/// are blank, unrecognized or empty-labelled, and line `i` carries a
/// label with times, the parser stops at once with the
/// time-line-before-date outcome naming line `i + 1` — which
/// `parse_lines` turns into the error carrying that 1-based line
/// number and the stripped line text, with no entries or warnings
/// handed out.
pub proof fn lemma_time_line_before_date_fatal(
    lv: Seq<Seq<char>>, st: PState, k: int, i: int,
)
    requires
        st.cur is None,
        0 <= k <= i < lv.len(),
        forall|j: int| k <= j < i ==> benign_line(remove_comments_spec(#[trigger] lv[j])),
        date_line_shape(remove_comments_spec(lv[i])) is None,
        label_shape(remove_comments_spec(lv[i])) matches Some(sh)
            && sh.times_start < remove_comments_spec(lv[i]).len(),
    ensures
        run_parser(lv, k, st) == (SpecOutcome::Fatal {
            kind: FatalKind::TimeLineBeforeDate,
            line: i + 1,
        }),
    decreases i - k,
{
    let line = remove_comments_spec(lv[k]);
    if k == i {
    } else {
        assert(benign_line(line));
        match label_shape(line) {
            Some(sh) => {
                lemma_time_line_before_date_fatal(lv, PState {
                    days: st.days,
                    cur: st.cur,
                    warnings: st.warnings.push(
                        incomplete_time_line_warning_spec(k + 1, line)),
                }, k + 1, i);
            }
            None => {
                if line.len() == 0 {
                    lemma_time_line_before_date_fatal(lv, st, k + 1, i);
                } else {
                    lemma_time_line_before_date_fatal(lv, PState {
                        days: st.days,
                        cur: st.cur,
                        warnings: st.warnings.push(
                            invalid_line_warning_spec(k + 1, line)),
                    }, k + 1, i);
                }
            }
        }
    }
}

/// How an executable allocation realizes a specification one: same
/// label pieces, and the same ranges up to the sorting that
/// `ProjectTimes` applies.
pub open spec fn alloc_matches(pt: ProjectTimes, a: SpecAlloc) -> bool {
    pt.spec_project().spec_client() == a.client
        && pt.spec_project().spec_code() == a.code
        && pt.spec_project().spec_subcode() == a.subcode
        && pt.spec_ranges().to_multiset() == a.ranges.to_multiset()
}

pub open spec fn day_matches(e: DayEntry, d: SpecDay) -> bool {
    e.spec_date() == d.date && e.spec_line_number() == d.line
        && e.spec_projects().len() == d.allocs.len()
        && forall|j: int| 0 <= j < d.allocs.len()
            ==> alloc_matches(#[trigger] e.spec_projects()[j], d.allocs[j])
}

pub open spec fn days_match(es: Seq<DayEntry>, ds: Seq<SpecDay>) -> bool {
    es.len() == ds.len() && forall|j: int| 0 <= j < ds.len()
        ==> day_matches(#[trigger] es[j], ds[j])
}

pub open spec fn warnings_match(ws: Seq<String>, sp: Seq<Seq<char>>) -> bool {
    ws.len() == sp.len() && forall|j: int| 0 <= j < sp.len()
        ==> (#[trigger] ws[j])@ == sp[j]
}

/// How an executable fatal error realizes a specification one.
pub open spec fn fatal_matches(e: Error, kind: FatalKind, ln: int, line: Seq<char>) -> bool {
    match kind {
        FatalKind::DateInvalid => e is InvalidDate,
        FatalKind::TimeLineBeforeDate => e matches Error::TimeLineWithNoDate {
            line_number, line: l,
        } && line_number as int == ln && l@ == line,
        FatalKind::TimesMalformed => e is InvalidTimeRanges,
        FatalKind::TimeInvalid => e is InvalidTime,
        FatalKind::RangeOrder => e is OutOfOrderTimeRange,
        FatalKind::RangesOverlap => e is ConflictingTimeRanges,
    }
}

/// The views of the raw input lines.
pub open spec fn line_views(ls: Seq<String>) -> Seq<Seq<char>> {
    Seq::new(ls.len(), |i: int| ls[i]@)
}

/// Parses the lines of a ledger into ordered day entries and warnings,
/// or stops at the first fatal error, exactly as `run_parser` says.
pub fn parse_lines(lines: &Vec<String>) -> (r: Result<(Vec<DayEntry>, Vec<String>), Error>)
    requires
        lines@.len() < 0x100000000,
    ensures
        ({
            let outcome = run_parser(line_views(lines@), 0, pstate_init());
            match outcome {
                SpecOutcome::Finished { days, warnings } => r matches Ok(p)
                    && days_match(p.0@, days) && warnings_match(p.1@, warnings),
                SpecOutcome::Fatal { kind, line } => r matches Err(e)
                    && fatal_matches(e, kind, line,
                        remove_comments_spec(line_views(lines@)[line - 1])),
            }
        }),
{
    let ghost lv = line_views(lines@);
    let mut days: Vec<DayEntry> = Vec::new();
    let mut warnings: Vec<String> = Vec::new();
    let mut cur_date: Option<Date> = None;
    let mut cur_allocs: Vec<ProjectTimes> = Vec::new();
    let mut cur_line: u32 = 0;
    let ghost mut st: PState = pstate_init();
    let n = lines.len();
    let mut i: usize = 0;
    while i < n
        invariant
            n == lines@.len(),
            lv == line_views(lines@),
            n < 0x100000000,
            i <= n,
            run_parser(lv, 0, pstate_init()) == run_parser(lv, i as int, st),
            days_match(days@, st.days),
            warnings_match(warnings@, st.warnings),
            (cur_date is Some) == (st.cur is Some),
            cur_date is None ==> cur_allocs@.len() == 0,
            cur_date matches Some(cd) ==> (st.cur matches Some(c) && c.date == cd
                && c.line == cur_line as int
                && cur_allocs@.len() == c.allocs.len()
                && forall|j: int| 0 <= j < c.allocs.len()
                    ==> alloc_matches(#[trigger] cur_allocs@[j], c.allocs[j])),
        decreases n - i,
    {
        let raw: &String = &lines[i];
        let line_string = remove_comments(raw.as_str());
        let lvch = text::to_chars(line_string.as_str());
        let ln: u32 = (i + 1) as u32;
        let ghost cline = remove_comments_spec(lv[i as int]);
        proof {
            assert(lv[i as int] == lines@[i as int]@);
            assert(line_string@ == cline);
            assert(lvch@ == cline);
        }
        let ghost st0 = st;
        if is_date_line(line_string.as_str()) {
            match parse_date_line(line_string.as_str()) {
                Err(e) => {
                    proof {
                        assert(run_parser(lv, i as int, st0) == (SpecOutcome::Fatal {
                            kind: FatalKind::DateInvalid, line: ln as int,
                        }));
                    }
                    return Err(e);
                }
                Ok(nd) => {
                    match cur_date {
                        Some(prev) => {
                            if nd.day_num() <= prev.day_num() {
                                warnings.push(ooo_warning(ln, &prev, &nd));
                            }
                            let mut taken: Vec<ProjectTimes> = Vec::new();
                            std::mem::swap(&mut taken, &mut cur_allocs);
                            days.push(DayEntry::new(prev, taken, cur_line));
                        }
                        None => {}
                    }
                    cur_date = Some(nd);
                    cur_line = ln;
                    proof {
                        let warnings1 = match st0.cur {
                            Some(c) => if nd.dn() <= c.date.dn() {
                                st0.warnings.push(ooo_warning_spec(
                                    ln as int, c.date, nd))
                            } else {
                                st0.warnings
                            },
                            None => st0.warnings,
                        };
                        let days1 = match st0.cur {
                            Some(c) => st0.days.push(c),
                            None => st0.days,
                        };
                        st = PState {
                            days: days1,
                            cur: Some(SpecDay {
                                date: nd, allocs: Seq::empty(), line: ln as int,
                            }),
                            warnings: warnings1,
                        };
                        assert(run_parser(lv, i as int, st0)
                            == run_parser(lv, i as int + 1, st));
                    }
                }
            }
        } else if is_empty_time_line(line_string.as_str()) {
            warnings.push(incomplete_time_line_warning(ln, &lvch));
            proof {
                st = PState {
                    days: st0.days,
                    cur: st0.cur,
                    warnings: st0.warnings.push(
                        incomplete_time_line_warning_spec(ln as int, cline)),
                };
                assert(run_parser(lv, i as int, st0)
                    == run_parser(lv, i as int + 1, st));
            }
        } else if is_time_line(line_string.as_str()) {
            let prev = match cur_date {
                None => {
                    proof {
                        assert(run_parser(lv, i as int, st0) == (SpecOutcome::Fatal {
                            kind: FatalKind::TimeLineBeforeDate, line: ln as int,
                        }));
                    }
                    return Err(Error::TimeLineWithNoDate {
                        line_number: ln,
                        line: line_string,
                    });
                }
                Some(d) => d,
            };
            match parse_time_line(line_string.as_str()) {
                Err(e) => {
                    proof {
                        let sh = label_shape(cline)->Some_0;
                        let times = times_of_line(cline, sh);
                        if times_list_shape(times) is Some {
                            let k = times_list_shape(times)->Some_0.0;
                            lemma_first_bad_unit(times, k);
                        }
                        assert(run_parser(lv, i as int, st0) matches SpecOutcome::Fatal {
                            kind, line,
                        } && line == ln as int
                            && fatal_matches(e, kind, ln as int, cline));
                    }
                    return Err(e);
                }
                Ok((pt, incomplete)) => {
                    if incomplete {
                        warnings.push(incomplete_range_warning(ln, &prev, &lvch));
                    }
                    cur_allocs.push(pt);
                    proof {
                        let sh = label_shape(cline)->Some_0;
                        let times = times_of_line(cline, sh);
                        let k = times_list_shape(times)->Some_0.0;
                        lemma_first_bad_unit(times, k);
                        let c = st0.cur->Some_0;
                        let alloc = SpecAlloc {
                            client: cline.subrange(0, sh.client_end),
                            code: cline.subrange(sh.client_end + 1, sh.code_end),
                            subcode: subcode_of_line(cline, sh),
                            ranges: unit_ranges(times, k),
                        };
                        let warnings1 = if incomplete {
                            st0.warnings.push(incomplete_range_warning_spec(
                                ln as int, c.date, cline))
                        } else {
                            st0.warnings
                        };
                        st = PState {
                            days: st0.days,
                            cur: Some(SpecDay {
                                date: c.date,
                                allocs: c.allocs.push(alloc),
                                line: c.line,
                            }),
                            warnings: warnings1,
                        };
                        assert(alloc_matches(pt, alloc));
                        assert(run_parser(lv, i as int, st0)
                            == run_parser(lv, i as int + 1, st));
                    }
                }
            }
        } else if text::str_eq_chars("END", &lvch) {
            proof {
                assert(run_parser(lv, i as int, st0) == (SpecOutcome::Finished {
                    days: st0.days, warnings: st0.warnings,
                }));
            }
            return Ok((days, warnings));
        } else if lvch.len() == 0 {
            proof {
                assert(run_parser(lv, i as int, st0)
                    == run_parser(lv, i as int + 1, st));
            }
        } else {
            warnings.push(invalid_line_warning(ln, &lvch));
            proof {
                st = PState {
                    days: st0.days,
                    cur: st0.cur,
                    warnings: st0.warnings.push(
                        invalid_line_warning_spec(ln as int, cline)),
                };
                assert(run_parser(lv, i as int, st0)
                    == run_parser(lv, i as int + 1, st));
            }
        }
        i = i + 1;
    }
    match cur_date {
        Some(d) => {
            let mut taken: Vec<ProjectTimes> = Vec::new();
            std::mem::swap(&mut taken, &mut cur_allocs);
            days.push(DayEntry::new(d, taken, cur_line));
        }
        None => {}
    }
    proof {
        assert(run_parser(lv, n as int, st) matches SpecOutcome::Finished {
            days: ds, warnings: ws,
        } && days_match(days@, ds) && warnings_match(warnings@, ws));
    }
    Ok((days, warnings))
}

} // verus!
