//! The week-based billing report engine: per-week minute buckets keyed
//! by weekday and project, billable rounding, and the fixed-width text
//! rendering.

use vstd::prelude::*;
use crate::error::Error;
use crate::model::{
    Date, DateRange, DayEntry, Project, ProjectTimes, day_abbrev_spec, date_with_dn,
    max_day_number, project_times_seq_same,
};
use crate::text;

verus! {

broadcast use vstd::string::group_string_axioms;

/// Whether a report keeps subcodes apart or folds them together.
#[derive(Debug, Clone, Copy, PartialEq, Eq, Structural)]
pub enum ReportMode {
    Detail,
    Summary,
}

impl ReportMode {
    /// The other mode.
    pub fn toggle(&self) -> (r: ReportMode)
        ensures
            *self is Detail ==> r is Summary,
            *self is Summary ==> r is Detail,
    {
        match self {
            ReportMode::Detail => ReportMode::Summary,
            ReportMode::Summary => ReportMode::Detail,
        }
    }
}

/// Minutes rounded down to the nearest quarter hour; partial quarter
/// hours are not billed.
pub fn billable_minutes(m: u32) -> (r: u32)
    ensures
        r == m - (m % 15),
{
    m - (m % 15)
}

// --- aggregation keys and week buckets ---

/// A bucket key: one weekday name and one project.
#[derive(Debug)]
pub struct Key {
    day_name: String,
    project: Project,
}

impl Key {
    pub closed spec fn spec_day_name(self) -> Seq<char> {
        self.day_name@
    }

    pub closed spec fn spec_project(self) -> Project {
        self.project
    }

    pub fn new(project: &Project, day_name: &str) -> (r: Key)
        ensures
            r.spec_day_name() == day_name@,
            Project::same(r.spec_project(), *project),
    {
        Key { day_name: day_name.to_owned(), project: project.duplicate() }
    }

    /// Whether the key names the given weekday and project.
    pub open spec fn is_for(self, day: Seq<char>, p: Project) -> bool {
        self.spec_day_name() == day && Project::same(self.spec_project(), p)
    }
}

/// Minutes of one project-times record.
pub open spec fn ranges_total(rs: Seq<crate::model::TimeRange>) -> int
    decreases rs.len(),
{
    if rs.len() == 0 {
        0
    } else {
        ranges_total(rs.drop_last()) + (rs.last().spec_to() - rs.last().spec_from())
    }
}

/// Minutes an entry's allocations book against a given project.
pub open spec fn allocs_minutes(pts: Seq<ProjectTimes>, p: Project) -> int
    decreases pts.len(),
{
    if pts.len() == 0 {
        0
    } else {
        allocs_minutes(pts.drop_last(), p)
            + if Project::same(pts.last().spec_project(), p) {
                ranges_total(pts.last().spec_ranges())
            } else {
                0
            }
    }
}

/// Minutes an entry books against the bucket key `(day, p)`.
pub open spec fn day_key_minutes(e: DayEntry, day: Seq<char>, p: Project) -> int {
    if day == day_abbrev_spec(e.spec_date().dn() % 7) {
        allocs_minutes(e.spec_projects(), p)
    } else {
        0
    }
}

/// Whether some allocation of the list names the project.
pub open spec fn allocs_have(pts: Seq<ProjectTimes>, p: Project) -> bool {
    exists|j: int| 0 <= j < pts.len()
        && Project::same((#[trigger] pts[j]).spec_project(), p)
}

/// Whether an entry books anything (even zero minutes) against the key.
pub open spec fn day_has_key(e: DayEntry, day: Seq<char>, p: Project) -> bool {
    day == day_abbrev_spec(e.spec_date().dn() % 7) && allocs_have(e.spec_projects(), p)
}

/// All minutes an entry books, over all its allocations.
pub open spec fn entry_total(e: DayEntry) -> int {
    allocs_total(e.spec_projects())
}

pub open spec fn allocs_total(pts: Seq<ProjectTimes>) -> int
    decreases pts.len(),
{
    if pts.len() == 0 {
        0
    } else {
        allocs_total(pts.drop_last()) + ranges_total(pts.last().spec_ranges())
    }
}

/// The per-week accumulator of minute totals keyed by weekday name and
/// project.
#[derive(Debug)]
pub struct WeekData {
    minutes: Vec<(Key, u32)>,
}

/// What one bucket entry contributes to a filtered sum: its value when
/// both optional filters accept its key, raw or rounded to billable.
pub open spec fn wentry_contrib(
    x: (Key, u32), dayf: Option<Seq<char>>, projf: Option<Project>, billable: bool,
) -> int {
    let v = x.1 as int;
    if (match dayf {
        Some(day) => x.0.spec_day_name() == day,
        None => true,
    }) && (match projf {
        Some(p) => Project::same(x.0.spec_project(), p),
        None => true,
    }) {
        if billable { v - v % 15 } else { v }
    } else {
        0
    }
}

/// Sum of the bucket values passing the optional filters, each value
/// taken raw or rounded down to billable minutes.
pub open spec fn wsum(
    es: Seq<(Key, u32)>, dayf: Option<Seq<char>>, projf: Option<Project>, billable: bool,
) -> int
    decreases es.len(),
{
    if es.len() == 0 {
        0
    } else {
        wsum(es.drop_last(), dayf, projf, billable)
            + wentry_contrib(es.last(), dayf, projf, billable)
    }
}

/// Each contribution lies between zero and the raw entry value.
proof fn lemma_contrib_bounds(
    x: (Key, u32), dayf: Option<Seq<char>>, projf: Option<Project>, billable: bool,
)
    ensures
        0 <= wentry_contrib(x, dayf, projf, billable)
            <= wentry_contrib(x, None, None, false),
        wentry_contrib(x, None, None, false) == x.1 as int,
{
}

/// Prefix sums grow with the prefix, and filtered sums never exceed the
/// raw sum of everything.
proof fn lemma_wsum_take_step(
    es: Seq<(Key, u32)>, i: int, dayf: Option<Seq<char>>, projf: Option<Project>,
    billable: bool,
)
    requires
        0 <= i < es.len(),
    ensures
        wsum(es.take(i + 1), dayf, projf, billable)
            == wsum(es.take(i), dayf, projf, billable)
                + wentry_contrib(es[i], dayf, projf, billable),
{
    assert(es.take(i + 1).drop_last() =~= es.take(i));
    assert(es.take(i + 1).last() == es[i]);
}

proof fn lemma_wsum_take_all(
    es: Seq<(Key, u32)>, dayf: Option<Seq<char>>, projf: Option<Project>, billable: bool,
)
    ensures
        wsum(es.take(es.len() as int), dayf, projf, billable)
            == wsum(es, dayf, projf, billable),
{
    assert(es.take(es.len() as int) =~= es);
}

/// A filtered prefix sum never exceeds the raw sum of the whole bucket.
proof fn lemma_wsum_prefix_le(
    es: Seq<(Key, u32)>, i: int, dayf: Option<Seq<char>>, projf: Option<Project>,
    billable: bool,
)
    requires
        0 <= i <= es.len(),
    ensures
        0 <= wsum(es.take(i), dayf, projf, billable) <= wsum(es, None, None, false),
    decreases es.len() - i,
{
    if i == es.len() {
        lemma_wsum_take_all(es, dayf, projf, billable);
        lemma_wsum_nonneg_le(es, dayf, projf, billable);
    } else {
        lemma_wsum_prefix_le(es, i + 1, dayf, projf, billable);
        lemma_wsum_take_step(es, i, dayf, projf, billable);
        lemma_contrib_bounds(es[i], dayf, projf, billable);
        lemma_wsum_nonneg_le(es.take(i), dayf, projf, billable);
    }
}

/// Filtered sums lie between zero and the raw total.
proof fn lemma_wsum_nonneg_le(
    es: Seq<(Key, u32)>, dayf: Option<Seq<char>>, projf: Option<Project>, billable: bool,
)
    ensures
        0 <= wsum(es, dayf, projf, billable) <= wsum(es, None, None, false),
    decreases es.len(),
{
    if es.len() > 0 {
        lemma_wsum_nonneg_le(es.drop_last(), dayf, projf, billable);
        lemma_contrib_bounds(es.last(), dayf, projf, billable);
    }
}

/// Updating one entry's value moves every filtered raw sum by the
/// difference its key contributes.
proof fn lemma_wsum_update(
    es: Seq<(Key, u32)>, i: int, x: (Key, u32), dayf: Option<Seq<char>>,
    projf: Option<Project>,
)
    requires
        0 <= i < es.len(),
        x.0.spec_day_name() == es[i].0.spec_day_name(),
        Project::same(x.0.spec_project(), es[i].0.spec_project()),
    ensures
        wsum(es.update(i, x), dayf, projf, false)
            == wsum(es, dayf, projf, false)
                - wentry_contrib(es[i], dayf, projf, false)
                + wentry_contrib(x, dayf, projf, false),
    decreases es.len(),
{
    let es2 = es.update(i, x);
    if i == es.len() - 1 {
        assert(es2.drop_last() =~= es.drop_last());
        assert(es2.last() == x);
    } else {
        assert(es2.drop_last() =~= es.drop_last().update(i, x));
        assert(es2.last() == es.last());
        lemma_wsum_update(es.drop_last(), i, x, dayf, projf);
    }
}

/// Whether the bucket holds a value for the key `(day, p)`.
pub open spec fn wd_present(es: Seq<(Key, u32)>, day: Seq<char>, p: Project) -> bool {
    exists|i: int| 0 <= i < es.len() && (#[trigger] es[i]).0.is_for(day, p)
}

/// The raw minutes recorded for the key `(day, p)`.
pub open spec fn wd_val(es: Seq<(Key, u32)>, day: Seq<char>, p: Project) -> int {
    wsum(es, Some(day), Some(p), false)
}

impl WeekData {
    #[verifier::type_invariant]
    spec fn wf(self) -> bool {
        forall|i: int, j: int| #![trigger self.minutes@[i], self.minutes@[j]]
            0 <= i < j < self.minutes@.len()
            ==> !self.minutes@[i].0.is_for(
                self.minutes@[j].0.spec_day_name(), self.minutes@[j].0.spec_project())
    }

    pub closed spec fn spec_entries(self) -> Seq<(Key, u32)> {
        self.minutes@
    }

    pub fn new() -> (r: WeekData)
        ensures
            r.spec_entries() == Seq::<(Key, u32)>::empty(),
    {
        WeekData { minutes: Vec::new() }
    }

    pub fn clear(&mut self)
        ensures
            final(self).spec_entries() == Seq::<(Key, u32)>::empty(),
    {
        proof {
            use_type_invariant(&*self);
        }
        self.minutes = Vec::new();
    }

    /// Books `add` minutes against the key `(day_name, project)`.
    fn bump(&mut self, day_name: &str, project: &Project, add: u32)
        requires
            wsum(old(self).spec_entries(), None, None, false) + add <= u32::MAX,
        ensures
            forall|day: Seq<char>, p: Project|
                #[trigger] wd_val(final(self).spec_entries(), day, p)
                    == wd_val(old(self).spec_entries(), day, p)
                        + if day == day_name@ && Project::same(*project, p) {
                            add as int
                        } else {
                            0
                        },
            forall|day: Seq<char>, p: Project|
                #[trigger] wd_present(final(self).spec_entries(), day, p)
                    <==> (wd_present(old(self).spec_entries(), day, p)
                        || (day == day_name@ && Project::same(*project, p))),
            wsum(final(self).spec_entries(), None, None, false)
                == wsum(old(self).spec_entries(), None, None, false) + add,
    {
        proof {
            use_type_invariant(&*self);
        }
        let ghost es0 = self.minutes@;
        let mut ms: Vec<(Key, u32)> = Vec::new();
        std::mem::swap(&mut ms, &mut self.minutes);
        let n = ms.len();
        let mut i: usize = 0;
        while i < n
            invariant
                n == ms@.len(),
                ms@ == es0,
                es0 == old(self).spec_entries(),
                wsum(es0, None, None, false) + add <= u32::MAX,
                i <= n,
                forall|j: int| 0 <= j < i
                    ==> !(#[trigger] es0[j]).0.is_for(day_name@, *project),
                forall|a: int, b: int| #![trigger es0[a], es0[b]]
                    0 <= a < b < es0.len()
                    ==> !es0[a].0.is_for(
                        es0[b].0.spec_day_name(), es0[b].0.spec_project()),
            decreases n - i,
        {
            let hit = text::str_eq(ms[i].0.day_name.as_str(), day_name)
                && ms[i].0.project == *project;
            if hit {
                let v0 = ms[i].1;
                proof {
                    lemma_wsum_prefix_le(es0, i as int + 1, None, None, false);
                    lemma_wsum_take_step(es0, i as int, None, None, false);
                    lemma_wsum_prefix_le(es0, i as int, None, None, false);
                }
                let k2 = Key::new(project, day_name);
                let ghost x = (k2, (v0 + add) as u32);
                ms.set(i, (k2, v0 + add));
                self.minutes = ms;
                proof {
                    assert(self.minutes@ == es0.update(i as int, x));
                    assert forall|a: int, b: int|
                        #![trigger self.minutes@[a], self.minutes@[b]]
                        0 <= a < b < self.minutes@.len()
                        implies !self.minutes@[a].0.is_for(
                            self.minutes@[b].0.spec_day_name(),
                            self.minutes@[b].0.spec_project()) by {
                        assert(es0[a].0.spec_day_name()
                            == self.minutes@[a].0.spec_day_name()
                            || a == i as int);
                        assert(!es0[a].0.is_for(
                            es0[b].0.spec_day_name(), es0[b].0.spec_project()));
                    }
                    assert(Project::same(x.0.spec_project(), es0[i as int].0.spec_project()));
                    assert(x.0.spec_day_name() == es0[i as int].0.spec_day_name());
                    assert forall|day: Seq<char>, p: Project|
                        #[trigger] wd_val(self.minutes@, day, p)
                            == wd_val(es0, day, p)
                                + if day == day_name@ && Project::same(*project, p) {
                                    add as int
                                } else {
                                    0
                                } by {
                        lemma_wsum_update(es0, i as int, x, Some(day), Some(p));
                    }
                    lemma_wsum_update(es0, i as int, x, None, None);
                    assert forall|day: Seq<char>, p: Project|
                        #[trigger] wd_present(self.minutes@, day, p)
                            <==> (wd_present(es0, day, p)
                                || (day == day_name@ && Project::same(*project, p))) by {
                        if wd_present(self.minutes@, day, p) {
                            let j = choose|j: int| 0 <= j < self.minutes@.len()
                                && (#[trigger] self.minutes@[j]).0.is_for(day, p);
                            if j == i as int {
                                assert(es0[j].0.is_for(day, p));
                            } else {
                                assert(es0[j].0.is_for(day, p));
                            }
                        }
                        if wd_present(es0, day, p) {
                            let j = choose|j: int| 0 <= j < es0.len()
                                && (#[trigger] es0[j]).0.is_for(day, p);
                            if j == i as int {
                                assert(self.minutes@[j].0.is_for(day, p));
                            } else {
                                assert(self.minutes@[j].0.is_for(day, p));
                            }
                        }
                        if day == day_name@ && Project::same(*project, p) {
                            assert(self.minutes@[i as int].0.is_for(day, p));
                        }
                    }
                }
                return;
            }
            i = i + 1;
        }
        let k2 = Key::new(project, day_name);
        let ghost x = (k2, add);
        ms.push((k2, add));
        self.minutes = ms;
        proof {
            assert(self.minutes@ == es0.push(x));
            assert(self.minutes@.drop_last() =~= es0);
            assert forall|a: int, b: int|
                #![trigger self.minutes@[a], self.minutes@[b]]
                0 <= a < b < self.minutes@.len()
                implies !self.minutes@[a].0.is_for(
                    self.minutes@[b].0.spec_day_name(),
                    self.minutes@[b].0.spec_project()) by {
                if b < es0.len() {
                    assert(!es0[a].0.is_for(
                        es0[b].0.spec_day_name(), es0[b].0.spec_project()));
                } else {
                    assert(!es0[a].0.is_for(day_name@, *project));
                }
            }
            assert forall|day: Seq<char>, p: Project|
                #[trigger] wd_val(self.minutes@, day, p)
                    == wd_val(es0, day, p)
                        + if day == day_name@ && Project::same(*project, p) {
                            add as int
                        } else {
                            0
                        } by {
                assert(wsum(self.minutes@, Some(day), Some(p), false)
                    == wsum(es0, Some(day), Some(p), false)
                        + wentry_contrib(x, Some(day), Some(p), false));
            }
            assert forall|day: Seq<char>, p: Project|
                #[trigger] wd_present(self.minutes@, day, p)
                    <==> (wd_present(es0, day, p)
                        || (day == day_name@ && Project::same(*project, p))) by {
                if wd_present(self.minutes@, day, p) {
                    let j = choose|j: int| 0 <= j < self.minutes@.len()
                        && (#[trigger] self.minutes@[j]).0.is_for(day, p);
                    if j < es0.len() {
                        assert(es0[j].0.is_for(day, p));
                    }
                }
                if wd_present(es0, day, p) {
                    let j = choose|j: int| 0 <= j < es0.len()
                        && (#[trigger] es0[j]).0.is_for(day, p);
                    assert(self.minutes@[j].0.is_for(day, p));
                }
                if day == day_name@ && Project::same(*project, p) {
                    assert(self.minutes@[es0.len() as int].0.is_for(day, p));
                }
            }
        }
    }
}

/// Every range of every allocation lies within a day and runs
/// forward, which holds of every constructed record.
pub open spec fn entry_ranges_valid(pts: Seq<ProjectTimes>) -> bool {
    forall|j: int, k: int| #![trigger pts[j].spec_ranges()[k]]
        0 <= j < pts.len() && 0 <= k < pts[j].spec_ranges().len()
        ==> pts[j].spec_ranges()[k].valid()
}

/// Records that an entry's ranges are valid, which construction
/// guarantees of every executable value.
fn note_entry_ranges_valid(e: &DayEntry)
    ensures
        entry_ranges_valid(e.spec_projects()),
{
    let pts = e.projects();
    let mut j: usize = 0;
    while j < pts.len()
        invariant
            pts@ == e.spec_projects(),
            j <= pts@.len(),
            forall|a: int, k: int| #![trigger pts@[a].spec_ranges()[k]]
                0 <= a < j && 0 <= k < pts@[a].spec_ranges().len()
                ==> pts@[a].spec_ranges()[k].valid(),
        decreases pts@.len() - j,
    {
        let ranges = pts[j].time_ranges();
        let mut k: usize = 0;
        while k < ranges.len()
            invariant
                ranges@ == pts@[j as int].spec_ranges(),
                j < pts@.len(),
                k <= ranges@.len(),
                forall|x: int| 0 <= x < k
                    ==> (#[trigger] ranges@[x]).valid(),
            decreases ranges@.len() - k,
        {
            let d = ranges[k].duration();
            k = k + 1;
        }
        j = j + 1;
        proof {
            assert forall|a: int, k2: int| #![trigger pts@[a].spec_ranges()[k2]]
                0 <= a < j && 0 <= k2 < pts@[a].spec_ranges().len()
                implies pts@[a].spec_ranges()[k2].valid() by {
                if a == j - 1 {
                    assert(ranges@[k2].valid());
                }
            }
        }
    }
}

proof fn lemma_rt_nonneg(rs: Seq<crate::model::TimeRange>)
    requires
        forall|k: int| 0 <= k < rs.len() ==> (#[trigger] rs[k]).valid(),
    ensures
        0 <= ranges_total(rs),
    decreases rs.len(),
{
    if rs.len() > 0 {
        assert(forall|k: int| 0 <= k < rs.drop_last().len()
            ==> (#[trigger] rs.drop_last()[k]).valid());
        lemma_rt_nonneg(rs.drop_last());
        assert(rs.last().valid());
    }
}

proof fn lemma_rt_prefix(rs: Seq<crate::model::TimeRange>, x: int)
    requires
        forall|k: int| 0 <= k < rs.len() ==> (#[trigger] rs[k]).valid(),
        0 <= x <= rs.len(),
    ensures
        0 <= ranges_total(rs.take(x)) <= ranges_total(rs),
    decreases rs.len() - x,
{
    assert(forall|k: int| 0 <= k < rs.take(x).len()
        ==> (#[trigger] rs.take(x)[k]).valid());
    lemma_rt_nonneg(rs.take(x));
    if x == rs.len() {
        assert(rs.take(x) =~= rs);
    } else {
        lemma_rt_prefix(rs, x + 1);
        assert(rs.take(x + 1).drop_last() =~= rs.take(x));
        assert(rs.take(x + 1).last() == rs[x]);
        assert(rs[x].valid());
    }
}

proof fn lemma_at_prefix(pts: Seq<ProjectTimes>, j: int)
    requires
        entry_ranges_valid(pts),
        0 <= j <= pts.len(),
    ensures
        0 <= allocs_total(pts.take(j)) <= allocs_total(pts),
    decreases pts.len() - j,
{
    lemma_at_nonneg(pts.take(j));
    if j == pts.len() {
        assert(pts.take(j) =~= pts);
    } else {
        lemma_at_prefix(pts, j + 1);
        lemma_allocs_take_step(pts, j);
        let rs = pts[j].spec_ranges();
        assert(forall|k: int| 0 <= k < rs.len() ==> (#[trigger] rs[k]).valid());
        lemma_rt_nonneg(rs);
    }
}

proof fn lemma_at_nonneg(pts: Seq<ProjectTimes>)
    requires
        entry_ranges_valid(pts),
    ensures
        0 <= allocs_total(pts),
    decreases pts.len(),
{
    if pts.len() > 0 {
        assert(entry_ranges_valid(pts.drop_last())) by {
            assert(forall|j: int, k: int|
                #![trigger pts.drop_last()[j].spec_ranges()[k]]
                0 <= j < pts.drop_last().len()
                    && 0 <= k < pts.drop_last()[j].spec_ranges().len()
                ==> pts.drop_last()[j] == pts[j]
                    && pts[j].spec_ranges()[k].valid());
        }
        lemma_at_nonneg(pts.drop_last());
        let rs = pts.last().spec_ranges();
        assert(forall|k: int| 0 <= k < rs.len() ==> (#[trigger] rs[k]).valid()) by {
            assert(forall|k: int| 0 <= k < rs.len()
                ==> #[trigger] pts[pts.len() - 1].spec_ranges()[k].valid());
        }
        lemma_rt_nonneg(rs);
    }
}

/// Unrolling lemma for the allocation sums.
proof fn lemma_allocs_take_step(pts: Seq<ProjectTimes>, j: int)
    requires
        0 <= j < pts.len(),
    ensures
        allocs_total(pts.take(j + 1))
            == allocs_total(pts.take(j)) + ranges_total(pts[j].spec_ranges()),
{
    assert(pts.take(j + 1).drop_last() =~= pts.take(j));
    assert(pts.take(j + 1).last() == pts[j]);
}

proof fn lemma_allocs_minutes_take_step(pts: Seq<ProjectTimes>, j: int)
    requires
        0 <= j < pts.len(),
    ensures
        forall|p: Project| #[trigger] allocs_minutes(pts.take(j + 1), p)
            == allocs_minutes(pts.take(j), p)
                + if Project::same(pts[j].spec_project(), p) {
                    ranges_total(pts[j].spec_ranges())
                } else {
                    0
                },
{
    assert(pts.take(j + 1).drop_last() =~= pts.take(j));
    assert(pts.take(j + 1).last() == pts[j]);
}

impl WeekData {
    /// Books a whole day entry: every allocation's minutes against the
    /// key of the entry's weekday and the allocation's project.
    pub fn add_day_entry(&mut self, day_entry: &DayEntry)
        requires
            wsum(old(self).spec_entries(), None, None, false)
                + entry_total(*day_entry) <= u32::MAX,
        ensures
            forall|day: Seq<char>, p: Project|
                #[trigger] wd_val(final(self).spec_entries(), day, p)
                    == wd_val(old(self).spec_entries(), day, p)
                        + day_key_minutes(*day_entry, day, p),
            forall|day: Seq<char>, p: Project|
                #[trigger] wd_present(final(self).spec_entries(), day, p)
                    <==> (wd_present(old(self).spec_entries(), day, p)
                        || day_has_key(*day_entry, day, p)),
            wsum(final(self).spec_entries(), None, None, false)
                == wsum(old(self).spec_entries(), None, None, false)
                    + entry_total(*day_entry),
    {
        note_entry_ranges_valid(day_entry);
        let day_name = day_entry.date().day_abbrev();
        let ghost dn7 = day_entry.spec_date().dn() % 7;
        let pts = day_entry.projects();
        let ghost pseq = day_entry.spec_projects();
        let ghost w0 = wsum(old(self).spec_entries(), None, None, false);
        let mut j: usize = 0;
        while j < pts.len()
            invariant
                pts@ == pseq,
                entry_ranges_valid(pseq),
                day_name@ == day_abbrev_spec(dn7),
                dn7 == day_entry.spec_date().dn() % 7,
                j <= pseq.len(),
                w0 == wsum(old(self).spec_entries(), None, None, false),
                w0 + allocs_total(pseq) <= u32::MAX,
                entry_total(*day_entry) == allocs_total(pseq),
                wsum(self.spec_entries(), None, None, false)
                    == w0 + allocs_total(pseq.take(j as int)),
                forall|day: Seq<char>, p: Project|
                    #[trigger] wd_val(self.spec_entries(), day, p)
                        == wd_val(old(self).spec_entries(), day, p)
                            + if day == day_abbrev_spec(dn7) {
                                allocs_minutes(pseq.take(j as int), p)
                            } else {
                                0
                            },
                forall|day: Seq<char>, p: Project|
                    #[trigger] wd_present(self.spec_entries(), day, p)
                        <==> (wd_present(old(self).spec_entries(), day, p)
                            || (day == day_abbrev_spec(dn7)
                                && exists|x: int| 0 <= x < j
                                    && Project::same(
                                        (#[trigger] pseq[x]).spec_project(), p))),
            decreases pseq.len() - j,
        {
            let pt = &pts[j];
            let ranges = pt.time_ranges();
            let ghost rseq = pt.spec_ranges();
            proof {
                lemma_wsum_nonneg_le(old(self).spec_entries(), None, None, false);
                lemma_at_prefix(pseq, j as int);
                lemma_at_prefix(pseq, j as int + 1);
                lemma_allocs_take_step(pseq, j as int);
                assert(forall|k: int| 0 <= k < rseq.len()
                    ==> (#[trigger] rseq[k]).valid()) by {
                    assert(forall|k: int| 0 <= k < rseq.len()
                        ==> #[trigger] pseq[j as int].spec_ranges()[k].valid());
                }
                lemma_rt_nonneg(rseq);
            }
            let mut total: u32 = 0;
            let mut t: usize = 0;
            while t < ranges.len()
                invariant
                    ranges@ == rseq,
                    forall|k: int| 0 <= k < rseq.len() ==> (#[trigger] rseq[k]).valid(),
                    t <= rseq.len(),
                    total == ranges_total(rseq.take(t as int)),
                    ranges_total(rseq) <= u32::MAX,
                decreases rseq.len() - t,
            {
                let d = ranges[t].duration();
                proof {
                    lemma_rt_prefix(rseq, t as int);
                    lemma_rt_prefix(rseq, t as int + 1);
                    assert(rseq.take(t as int + 1).drop_last() =~= rseq.take(t as int));
                    assert(rseq.take(t as int + 1).last() == rseq[t as int]);
                }
                total = total + d as u32;
                t = t + 1;
            }
            proof {
                assert(rseq.take(rseq.len() as int) =~= rseq);
            }
            self.bump(day_name.as_str(), pt.project(), total);
            j = j + 1;
            proof {
                lemma_allocs_minutes_take_step(pseq, j as int - 1);
                assert forall|day: Seq<char>, p: Project|
                    #[trigger] wd_present(self.spec_entries(), day, p)
                        <==> (wd_present(old(self).spec_entries(), day, p)
                            || (day == day_abbrev_spec(dn7)
                                && exists|x: int| 0 <= x < j
                                    && Project::same(
                                        (#[trigger] pseq[x]).spec_project(), p))) by {
                    if day == day_abbrev_spec(dn7)
                        && Project::same(pseq[j - 1].spec_project(), p) {
                        assert(exists|x: int| 0 <= x < j
                            && Project::same((#[trigger] pseq[x]).spec_project(), p));
                    }
                }
            }
        }
        proof {
            assert(pseq.take(pseq.len() as int) =~= pseq);
        }
    }
}

impl WeekData {
    /// Raw minutes for one project on one weekday.
    pub fn project_day_total(&self, project: &Project, day_name: &str) -> (r: u32)
        requires
            wsum(self.spec_entries(), None, None, false) <= u32::MAX,
        ensures
            r as int == wd_val(self.spec_entries(), day_name@, *project),
    {
        self.query(Some(day_name), Some(project), false)
    }

    /// Raw minutes for one project over the whole bucket.
    pub fn project_total(&self, project: &Project) -> (r: u32)
        requires
            wsum(self.spec_entries(), None, None, false) <= u32::MAX,
        ensures
            r as int == wsum(self.spec_entries(), None, Some(*project), false),
    {
        self.query(None, Some(project), false)
    }

    /// Billable minutes for one project over the whole bucket.
    pub fn project_billable(&self, project: &Project) -> (r: u32)
        requires
            wsum(self.spec_entries(), None, None, false) <= u32::MAX,
        ensures
            r as int == wsum(self.spec_entries(), None, Some(*project), true),
    {
        self.query(None, Some(project), true)
    }

    /// Raw minutes for one weekday over all projects.
    pub fn day_total(&self, day_name: &str) -> (r: u32)
        requires
            wsum(self.spec_entries(), None, None, false) <= u32::MAX,
        ensures
            r as int == wsum(self.spec_entries(), Some(day_name@), None, false),
    {
        self.query(Some(day_name), None, false)
    }

    /// Billable minutes for one weekday over all projects.
    pub fn day_billable(&self, day_name: &str) -> (r: u32)
        requires
            wsum(self.spec_entries(), None, None, false) <= u32::MAX,
        ensures
            r as int == wsum(self.spec_entries(), Some(day_name@), None, true),
    {
        self.query(Some(day_name), None, true)
    }

    /// Raw minutes of the whole bucket.
    pub fn week_total(&self) -> (r: u32)
        requires
            wsum(self.spec_entries(), None, None, false) <= u32::MAX,
        ensures
            r as int == wsum(self.spec_entries(), None, None, false),
    {
        self.query(None, None, false)
    }

    /// Billable minutes of the whole bucket.
    pub fn week_billable(&self) -> (r: u32)
        requires
            wsum(self.spec_entries(), None, None, false) <= u32::MAX,
        ensures
            r as int == wsum(self.spec_entries(), None, None, true),
    {
        self.query(None, None, true)
    }

    /// One filtered sum over the bucket entries.
    fn query(&self, dayf: Option<&str>, projf: Option<&Project>, billable: bool) -> (r: u32)
        requires
            wsum(self.spec_entries(), None, None, false) <= u32::MAX,
        ensures
            r as int == wsum(
                self.spec_entries(),
                match dayf {
                    Some(d) => Some(d@),
                    None => None,
                },
                match projf {
                    Some(p) => Some(*p),
                    None => None,
                },
                billable),
    {
        let ghost es = self.spec_entries();
        let ghost gdayf: Option<Seq<char>> = match dayf {
            Some(d) => Some(d@),
            None => None,
        };
        let ghost gprojf: Option<Project> = match projf {
            Some(p) => Some(*p),
            None => None,
        };
        let mut acc: u32 = 0;
        let mut i: usize = 0;
        let n = self.minutes.len();
        while i < n
            invariant
                es == self.spec_entries(),
                n == es.len(),
                i <= n,
                gdayf == (match dayf {
                    Some(d) => Some(d@),
                    None => None,
                }),
                gprojf == (match projf {
                    Some(p) => Some(*p),
                    None => None,
                }),
                wsum(es, None, None, false) <= u32::MAX,
                acc as int == wsum(es.take(i as int), gdayf, gprojf, billable),
            decreases n - i,
        {
            let day_hit = match dayf {
                Some(d) => text::str_eq(self.minutes[i].0.day_name.as_str(), d),
                None => true,
            };
            let proj_hit = match projf {
                Some(p) => self.minutes[i].0.project == *p,
                None => true,
            };
            let v = self.minutes[i].1;
            let piece: u32 = if day_hit && proj_hit {
                if billable { v - v % 15 } else { v }
            } else {
                0
            };
            proof {
                lemma_wsum_take_step(es, i as int, gdayf, gprojf, billable);
                lemma_wsum_prefix_le(es, i as int + 1, gdayf, gprojf, billable);
                lemma_wsum_prefix_le(es, i as int, gdayf, gprojf, billable);
                assert(piece as int == wentry_contrib(es[i as int], gdayf, gprojf, billable));
            }
            acc = acc + piece;
            i = i + 1;
        }
        proof {
            lemma_wsum_take_all(es, gdayf, gprojf, billable);
        }
        acc
    }
}

// --- the distinct projects of a report ---

/// Order on projects: by client, then code, then subcode.
pub open spec fn project_lt(a: Project, b: Project) -> bool {
    text::seq_lt(a.spec_client(), b.spec_client())
        || (a.spec_client() == b.spec_client()
            && text::seq_lt(a.spec_code(), b.spec_code()))
        || (a.spec_client() == b.spec_client() && a.spec_code() == b.spec_code()
            && text::seq_lt(a.spec_subcode(), b.spec_subcode()))
}

pub open spec fn projects_sorted(s: Seq<Project>) -> bool {
    forall|i: int, j: int| #![trigger s[i], s[j]]
        0 <= i < j < s.len() ==> project_lt(s[i], s[j])
}

/// Whether a project with these names is listed.
pub open spec fn has_project(s: Seq<Project>, p: Project) -> bool {
    exists|i: int| 0 <= i < s.len() && Project::same(#[trigger] s[i], p)
}

/// Whether any entry books time for a project with these names.
pub open spec fn entries_have_project(es: Seq<DayEntry>, p: Project) -> bool {
    exists|i: int, j: int| #![trigger es[i].spec_projects()[j]]
        0 <= i < es.len() && 0 <= j < es[i].spec_projects().len()
            && Project::same(es[i].spec_projects()[j].spec_project(), p)
}

/// Whether any entry books time for the project as the mode reads it:
/// by full identity in `Detail`, with subcodes folded in `Summary`.
pub open spec fn entries_have_project_mode(
    es: Seq<DayEntry>, p: Project, mode: ReportMode,
) -> bool {
    exists|i: int, j: int| #![trigger es[i].spec_projects()[j]]
        0 <= i < es.len() && 0 <= j < es[i].spec_projects().len()
            && proj_match_mode(es[i].spec_projects()[j].spec_project(), p, mode)
}

proof fn lemma_project_lt_connex(a: Project, b: Project)
    requires
        !project_lt(a, b),
        !project_lt(b, a),
    ensures
        Project::same(a, b),
{
    text::lemma_seq_lt_connex(a.spec_client(), b.spec_client());
    text::lemma_seq_lt_connex(a.spec_code(), b.spec_code());
    text::lemma_seq_lt_connex(a.spec_subcode(), b.spec_subcode());
}

proof fn lemma_project_lt_trans(a: Project, b: Project, c: Project)
    requires
        project_lt(a, b),
        project_lt(b, c),
    ensures
        project_lt(a, c),
{
    if text::seq_lt(a.spec_client(), b.spec_client())
        && text::seq_lt(b.spec_client(), c.spec_client()) {
        text::lemma_seq_lt_trans(a.spec_client(), b.spec_client(), c.spec_client());
    } else if a.spec_client() == b.spec_client() && b.spec_client() == c.spec_client() {
        if text::seq_lt(a.spec_code(), b.spec_code())
            && text::seq_lt(b.spec_code(), c.spec_code()) {
            text::lemma_seq_lt_trans(a.spec_code(), b.spec_code(), c.spec_code());
        } else if a.spec_code() == b.spec_code() && b.spec_code() == c.spec_code() {
            text::lemma_seq_lt_trans(
                a.spec_subcode(), b.spec_subcode(), c.spec_subcode());
        }
    }
}

fn project_lt_exec(a: &Project, b: &Project) -> (r: bool)
    ensures
        r == project_lt(*a, *b),
{
    let ac = text::to_chars(a.client().as_str());
    let bc = text::to_chars(b.client().as_str());
    if text::chars_lt(&ac, &bc) {
        return true;
    }
    if !text::chars_eq(&ac, &bc) {
        return false;
    }
    let ad = text::to_chars(a.code().as_str());
    let bd = text::to_chars(b.code().as_str());
    if text::chars_lt(&ad, &bd) {
        return true;
    }
    if !text::chars_eq(&ad, &bd) {
        return false;
    }
    let ae = text::to_chars(a.subcode().as_str());
    let be = text::to_chars(b.subcode().as_str());
    text::chars_lt(&ae, &be)
}

/// Inserts a project into an ascending list, keeping it ascending; a
/// project already listed is left alone.
fn insert_project_sorted(v: &mut Vec<Project>, p: &Project)
    requires
        projects_sorted(old(v)@),
    ensures
        projects_sorted(final(v)@),
        forall|q: Project| #![trigger has_project(final(v)@, q)]
            has_project(final(v)@, q)
                <==> (has_project(old(v)@, q) || Project::same(q, *p)),
{
    let mut pos: usize = 0;
    while pos < v.len() && project_lt_exec(&v[pos], p)
        invariant
            pos <= v@.len(),
            v@ == old(v)@,
            forall|k: int| 0 <= k < pos ==> project_lt(#[trigger] v@[k], *p),
        decreases v@.len() - pos,
    {
        pos = pos + 1;
    }
    if pos < v.len() && !project_lt_exec(p, &v[pos]) {
        proof {
            lemma_project_lt_connex(v@[pos as int], *p);
            assert(Project::same(v@[pos as int], *p));
            assert forall|q: Project| #![trigger has_project(v@, q)]
                has_project(v@, q) <==> (has_project(old(v)@, q)
                    || Project::same(q, *p)) by {
                if Project::same(q, *p) {
                    assert(Project::same(v@[pos as int], q));
                }
            }
        }
        return;
    }
    let ghost oldv = v@;
    let dup = p.duplicate();
    v.insert(pos, dup);
    proof {
        let pp = pos as int;
        let newv = v@;
        assert(newv == oldv.insert(pp, dup));
        assert(Project::same(dup, *p));
        assert forall|i: int| 0 <= i < newv.len() implies #[trigger] newv[i]
            == (if i < pp { oldv[i] } else if i == pp { dup } else { oldv[i - 1] }) by {
        }
        assert forall|i: int, j: int| #![trigger newv[i], newv[j]]
            0 <= i < j < newv.len() implies project_lt(newv[i], newv[j]) by {
            if j < pp {
            } else if i < pp && j == pp {
                assert(project_lt(oldv[i], *p));
            } else if i < pp && j > pp {
                assert(project_lt(oldv[i], oldv[j - 1]));
            } else if i == pp && j > pp {
                assert(pp < oldv.len());
                assert(project_lt(*p, oldv[pp]));
                if j - 1 > pp {
                    assert(project_lt(oldv[pp], oldv[j - 1]));
                    lemma_project_lt_trans(*p, oldv[pp], oldv[j - 1]);
                }
            } else {
                assert(project_lt(oldv[i - 1], oldv[j - 1]));
            }
        }
        assert forall|q: Project| #![trigger has_project(newv, q)]
            has_project(newv, q) <==> (has_project(oldv, q) || Project::same(q, *p)) by {
            if has_project(newv, q) {
                let i = choose|i: int| 0 <= i < newv.len()
                    && Project::same(#[trigger] newv[i], q);
                if i < pp {
                    assert(Project::same(oldv[i], q));
                } else if i > pp {
                    assert(Project::same(oldv[i - 1], q));
                }
            }
            if has_project(oldv, q) {
                let i = choose|i: int| 0 <= i < oldv.len()
                    && Project::same(#[trigger] oldv[i], q);
                if i < pp {
                    assert(Project::same(newv[i], q));
                } else {
                    assert(Project::same(newv[i + 1], q));
                }
            }
            if Project::same(q, *p) {
                assert(Project::same(newv[pp], q));
            }
        }
    }
}

/// The distinct projects appearing anywhere in the entry list, in
/// ascending order, each once.
pub fn unique_projects(day_entries: &Vec<DayEntry>) -> (r: Vec<Project>)
    ensures
        projects_sorted(r@),
        forall|p: Project| #![trigger has_project(r@, p)]
            has_project(r@, p) <==> entries_have_project(day_entries@, p),
{
    let ghost es = day_entries@;
    let mut r: Vec<Project> = Vec::new();
    let mut i: usize = 0;
    while i < day_entries.len()
        invariant
            es == day_entries@,
            i <= es.len(),
            projects_sorted(r@),
            forall|p: Project| #![trigger has_project(r@, p)]
                has_project(r@, p) <==> entries_have_project(es.take(i as int), p),
        decreases es.len() - i,
    {
        let pts = day_entries[i].projects();
        let mut j: usize = 0;
        while j < pts.len()
            invariant
                es == day_entries@,
                i < es.len(),
                pts@ == es[i as int].spec_projects(),
                j <= pts@.len(),
                projects_sorted(r@),
                forall|p: Project| #![trigger has_project(r@, p)]
                    has_project(r@, p) <==> (entries_have_project(es.take(i as int), p)
                        || exists|x: int| 0 <= x < j && Project::same(
                            (#[trigger] pts@[x]).spec_project(), p)),
            decreases pts@.len() - j,
        {
            insert_project_sorted(&mut r, pts[j].project());
            j = j + 1;
            proof {
                assert forall|p: Project| #![trigger has_project(r@, p)]
                    has_project(r@, p) <==> (entries_have_project(es.take(i as int), p)
                        || exists|x: int| 0 <= x < j && Project::same(
                            (#[trigger] pts@[x]).spec_project(), p)) by {
                    if Project::same(p, pts@[j - 1].spec_project()) {
                        assert(Project::same(pts@[j - 1].spec_project(), p));
                        assert(exists|x: int| 0 <= x < j && Project::same(
                            (#[trigger] pts@[x]).spec_project(), p));
                    }
                }
            }
        }
        i = i + 1;
        proof {
            let t1 = es.take(i as int);
            let t0 = es.take(i as int - 1);
            assert forall|p: Project| #![trigger has_project(r@, p)]
                has_project(r@, p) <==> entries_have_project(t1, p) by {
                if entries_have_project(t0, p) {
                    let (a, b) = choose|a: int, b: int|
                        #![trigger t0[a].spec_projects()[b]]
                        0 <= a < t0.len() && 0 <= b < t0[a].spec_projects().len()
                            && Project::same(t0[a].spec_projects()[b].spec_project(), p);
                    assert(t1[a] == t0[a]);
                    assert(Project::same(t1[a].spec_projects()[b].spec_project(), p));
                    assert(entries_have_project(t1, p));
                }
                if exists|x: int| 0 <= x < pts@.len() && Project::same(
                    (#[trigger] pts@[x]).spec_project(), p) {
                    let x = choose|x: int| 0 <= x < pts@.len() && Project::same(
                        (#[trigger] pts@[x]).spec_project(), p);
                    assert(t1[i as int - 1].spec_projects()[x].spec_project()
                        == pts@[x].spec_project());
                    assert(entries_have_project(t1, p));
                }
                if entries_have_project(t1, p) {
                    let (a, b) = choose|a: int, b: int|
                        #![trigger t1[a].spec_projects()[b]]
                        0 <= a < t1.len() && 0 <= b < t1[a].spec_projects().len()
                            && Project::same(t1[a].spec_projects()[b].spec_project(), p);
                    if a < i as int - 1 {
                        assert(t0[a] == t1[a]);
                        assert(Project::same(t0[a].spec_projects()[b].spec_project(), p));
                        assert(entries_have_project(t0, p));
                    } else {
                        assert(t1[a] == es[i as int - 1]);
                        assert(Project::same((pts@[b]).spec_project(), p));
                    }
                }
            }
        }
    }
    proof {
        assert(es.take(es.len() as int) =~= es);
    }
    r
}

// --- selecting and ordering the entries of a report ---

/// The entries whose dates lie in `[lo, hi]`, in their original order.
pub open spec fn filter_days(es: Seq<DayEntry>, lo: int, hi: int) -> Seq<DayEntry>
    decreases es.len(),
{
    if es.len() == 0 {
        Seq::empty()
    } else {
        (if lo <= es.first().spec_date().dn() <= hi {
            seq![es.first()]
        } else {
            Seq::empty()
        }) + filter_days(es.drop_first(), lo, hi)
    }
}

/// Inserts an entry into a date-ordered list, after any entries of the
/// same date.
pub open spec fn insert_day_sorted(s: Seq<DayEntry>, e: DayEntry) -> Seq<DayEntry>
    decreases s.len(),
{
    if s.len() == 0 {
        seq![e]
    } else if s.first().spec_date().dn() <= e.spec_date().dn() {
        seq![s.first()] + insert_day_sorted(s.drop_first(), e)
    } else {
        seq![e] + s
    }
}

/// Sorts entries by date, keeping the original order of equal dates.
pub open spec fn sort_days(s: Seq<DayEntry>) -> Seq<DayEntry>
    decreases s.len(),
{
    if s.len() == 0 {
        Seq::empty()
    } else {
        insert_day_sorted(sort_days(s.drop_last()), s.last())
    }
}

/// Entry lists that are the same entry by entry.
pub open spec fn days_same_seq(a: Seq<DayEntry>, b: Seq<DayEntry>) -> bool {
    a.len() == b.len() && forall|i: int| 0 <= i < a.len()
        ==> DayEntry::same(#[trigger] a[i], b[i])
}

proof fn lemma_filter_push(es: Seq<DayEntry>, x: DayEntry, lo: int, hi: int)
    ensures
        filter_days(es.push(x), lo, hi) == filter_days(es, lo, hi)
            + (if lo <= x.spec_date().dn() <= hi {
                seq![x]
            } else {
                Seq::<DayEntry>::empty()
            }),
    decreases es.len(),
{
    let p = es.push(x);
    if es.len() == 0 {
        assert(p.first() == x);
        assert(p.drop_first() =~= Seq::<DayEntry>::empty());
        assert(filter_days(Seq::<DayEntry>::empty(), lo, hi)
            =~= Seq::<DayEntry>::empty());
        assert(es =~= Seq::<DayEntry>::empty());
        if lo <= x.spec_date().dn() <= hi {
            assert(filter_days(p, lo, hi) =~= filter_days(es, lo, hi) + seq![x]);
        } else {
            assert(filter_days(p, lo, hi) =~= filter_days(es, lo, hi));
        }
    } else {
        assert(p.first() == es.first());
        assert(p.drop_first() =~= es.drop_first().push(x));
        lemma_filter_push(es.drop_first(), x, lo, hi);
        if lo <= es.first().spec_date().dn() <= hi {
            assert(filter_days(p, lo, hi) =~= filter_days(es, lo, hi)
                + (if lo <= x.spec_date().dn() <= hi {
                    seq![x]
                } else {
                    Seq::<DayEntry>::empty()
                }));
        } else {
            assert(filter_days(p, lo, hi) =~= filter_days(es, lo, hi)
                + (if lo <= x.spec_date().dn() <= hi {
                    seq![x]
                } else {
                    Seq::<DayEntry>::empty()
                }));
        }
    }
}

proof fn lemma_sort_push(s: Seq<DayEntry>, x: DayEntry)
    ensures
        sort_days(s.push(x)) == insert_day_sorted(sort_days(s), x),
{
    assert(s.push(x).drop_last() =~= s);
    assert(s.push(x).last() == x);
}

/// Where the position-based insertion lands: before the first entry of
/// a strictly later date.
proof fn lemma_insert_day_at(s: Seq<DayEntry>, e: DayEntry, pos: int)
    requires
        0 <= pos <= s.len(),
        forall|k: int| 0 <= k < pos ==> (#[trigger] s[k]).spec_date().dn()
            <= e.spec_date().dn(),
        pos < s.len() ==> s[pos].spec_date().dn() > e.spec_date().dn(),
    ensures
        insert_day_sorted(s, e) == s.take(pos) + seq![e] + s.skip(pos),
    decreases s.len(),
{
    if s.len() == 0 {
        assert(insert_day_sorted(s, e) =~= s.take(pos) + seq![e] + s.skip(pos));
    } else if s.first().spec_date().dn() <= e.spec_date().dn() {
        assert(pos >= 1);
        let d = s.drop_first();
        assert(forall|k: int| 0 <= k < pos - 1 ==> (#[trigger] d[k]).spec_date().dn()
            <= e.spec_date().dn()) by {
            assert(forall|k: int| 0 <= k < pos - 1 ==> d[k] == s[k + 1]);
        }
        lemma_insert_day_at(d, e, pos - 1);
        assert(seq![s.first()] + (d.take(pos - 1) + seq![e] + d.skip(pos - 1))
            =~= s.take(pos) + seq![e] + s.skip(pos));
    } else {
        assert(pos == 0);
        assert(seq![e] + s =~= s.take(0) + seq![e] + s.skip(0));
    }
}

/// The entries whose dates lie within the range, sorted ascending by
/// date; entries of equal dates keep their original order.
pub fn day_entries_in_range(dates: &DateRange, day_entries: &Vec<DayEntry>) -> (r: Vec<DayEntry>)
    ensures
        days_same_seq(r@, sort_days(filter_days(
            day_entries@, dates.spec_first().dn(), dates.spec_last().dn()))),
{
    let ghost lo = dates.spec_first().dn();
    let ghost hi = dates.spec_last().dn();
    let ghost es = day_entries@;
    let mut r: Vec<DayEntry> = Vec::new();
    let ghost mut ss: Seq<DayEntry> = Seq::empty();
    let mut i: usize = 0;
    proof {
        assert(es.take(0) =~= Seq::<DayEntry>::empty());
    }
    while i < day_entries.len()
        invariant
            es == day_entries@,
            lo == dates.spec_first().dn(),
            hi == dates.spec_last().dn(),
            i <= es.len(),
            ss == sort_days(filter_days(es.take(i as int), lo, hi)),
            days_same_seq(r@, ss),
            forall|a: int, b: int| #![trigger r@[a], r@[b]] 0 <= a < b < r@.len()
                ==> r@[a].spec_date().dn() <= r@[b].spec_date().dn(),
        decreases es.len() - i,
    {
        let e = &day_entries[i];
        let inside = dates.contains(&e.date());
        proof {
            assert(es.take(i as int + 1) =~= es.take(i as int).push(es[i as int]));
            lemma_filter_push(es.take(i as int), es[i as int], lo, hi);
        }
        if inside {
            let edn = e.date().day_num();
            let mut pos: usize = 0;
            while pos < r.len() && r[pos].date().day_num() <= edn
                invariant
                    pos <= r@.len(),
                    edn as int == es[i as int].spec_date().dn(),
                    i < es.len(),
                    es == day_entries@,
                    forall|k: int| 0 <= k < pos ==> (#[trigger] r@[k]).spec_date().dn()
                        <= edn as int,
                decreases r@.len() - pos,
            {
                pos = pos + 1;
            }
            let dup = e.duplicate();
            let ghost oldr = r@;
            r.insert(pos, dup);
            proof {
                lemma_sort_push(filter_days(es.take(i as int), lo, hi), es[i as int]);
                assert(filter_days(es.take(i as int + 1), lo, hi)
                    =~= filter_days(es.take(i as int), lo, hi).push(es[i as int]));
                assert forall|k: int| 0 <= k < pos implies
                    (#[trigger] ss[k]).spec_date().dn()
                        <= es[i as int].spec_date().dn() by {
                    assert(DayEntry::same(oldr[k], ss[k]));
                    assert(oldr[k].spec_date().dn() <= edn as int);
                }
                if (pos as int) < ss.len() {
                    assert(DayEntry::same(oldr[pos as int], ss[pos as int]));
                    assert(ss[pos as int].spec_date().dn() > es[i as int].spec_date().dn());
                }
                lemma_insert_day_at(ss, es[i as int], pos as int);
                ss = ss.take(pos as int) + seq![es[i as int]] + ss.skip(pos as int);
                assert(r@ == oldr.insert(pos as int, dup));
                assert forall|k: int| 0 <= k < r@.len()
                    implies DayEntry::same(#[trigger] r@[k], ss[k]) by {
                    if k < pos as int {
                        assert(r@[k] == oldr[k] && ss[k] == ss.take(pos as int)[k]);
                    } else if k == pos as int {
                        assert(r@[k] == dup);
                        assert(ss[k] == es[i as int]);
                    } else {
                        assert(r@[k] == oldr[k - 1]);
                    }
                }
                assert forall|a: int, b: int| #![trigger r@[a], r@[b]]
                    0 <= a < b < r@.len()
                    implies r@[a].spec_date().dn() <= r@[b].spec_date().dn() by {
                    let ra = if a < pos as int { oldr[a] } else if a == pos as int {
                        dup
                    } else {
                        oldr[a - 1]
                    };
                    assert(r@[a] == ra);
                    let rb = if b < pos as int { oldr[b] } else if b == pos as int {
                        dup
                    } else {
                        oldr[b - 1]
                    };
                    assert(r@[b] == rb);
                    if b == pos as int {
                        assert(oldr[a].spec_date().dn() <= edn as int);
                    } else if a == pos as int {
                        assert(b - 1 >= pos as int);
                        assert(!(oldr[pos as int].spec_date().dn() <= edn as int));
                        if b - 1 > pos as int {
                            assert(oldr[pos as int].spec_date().dn()
                                <= oldr[b - 1].spec_date().dn());
                        }
                    }
                }
            }
        } else {
            proof {
                assert(filter_days(es.take(i as int + 1), lo, hi)
                    =~= filter_days(es.take(i as int), lo, hi));
            }
        }
        i = i + 1;
    }
    proof {
        assert(es.take(es.len() as int) =~= es);
    }
    r
}

// --- rendering ---

/// A minute count rendered as `H:MM` with the hour right-justified in
/// `hour_len` columns, or a right-justified `-` when zero.
pub open spec fn render_time_spec(minutes: int, hour_len: int) -> Seq<char> {
    if minutes == 0 {
        text::pad_left(seq!['-'], hour_len + 3)
    } else {
        text::pad_left(text::dec_str((minutes / 60) as nat), hour_len) + seq![':']
            + text::zero_pad((minutes % 60) as nat, 2)
    }
}

pub fn render_time(minutes: u32, hour_len: usize) -> (r: String)
    requires
        hour_len <= 100,
    ensures
        r@ == render_time_spec(minutes as int, hour_len as int),
{
    let mut out: Vec<char> = Vec::new();
    if minutes == 0 {
        text::push_repeat(&mut out, ' ', hour_len + 2);
        out.push('-');
        proof {
            assert(out@ =~= render_time_spec(minutes as int, hour_len as int));
        }
    } else {
        let l = text::dec_len_u32(minutes / 60);
        if l < hour_len {
            text::push_repeat(&mut out, ' ', hour_len - l);
        } else {
            proof {
                assert(text::repeat_char(
                    ' ', hour_len - text::dec_str((minutes / 60) as nat).len())
                    =~= Seq::<char>::empty());
            }
        }
        text::push_dec_u32(&mut out, minutes / 60);
        out.push(':');
        text::push_zero_pad_u32(&mut out, minutes % 60, 2);
        proof {
            assert(out@ =~= render_time_spec(minutes as int, hour_len as int));
        }
    }
    text::from_chars(&out)
}

/// A signed minute count: `-` when zero, else a `+` or `-` sign and the
/// absolute value with the hour right-justified in `hour_len - 1`
/// columns.
pub open spec fn render_delta_spec(delta: int, hour_len: int) -> Seq<char> {
    let minutes = if delta < 0 { -delta } else { delta };
    if minutes == 0 {
        text::pad_left(seq!['-'], hour_len + 3)
    } else {
        seq![if delta < 0 { '-' } else { '+' }]
            + text::pad_left(text::dec_str((minutes / 60) as nat), hour_len - 1)
            + seq![':'] + text::zero_pad((minutes % 60) as nat, 2)
    }
}

pub fn render_delta(delta_minutes: i32, hour_len: usize) -> (r: String)
    requires
        1 <= hour_len <= 100,
        delta_minutes > i32::MIN,
    ensures
        r@ == render_delta_spec(delta_minutes as int, hour_len as int),
{
    let minutes: u32 = if delta_minutes < 0 {
        (-delta_minutes) as u32
    } else {
        delta_minutes as u32
    };
    let mut out: Vec<char> = Vec::new();
    if minutes == 0 {
        text::push_repeat(&mut out, ' ', hour_len + 2);
        out.push('-');
        proof {
            assert(out@ =~= render_delta_spec(delta_minutes as int, hour_len as int));
        }
    } else {
        out.push(if delta_minutes < 0 { '-' } else { '+' });
        let l = text::dec_len_u32(minutes / 60);
        if l < hour_len - 1 {
            text::push_repeat(&mut out, ' ', hour_len - 1 - l);
        } else {
            proof {
                assert(text::repeat_char(
                    ' ', hour_len - 1 - text::dec_str((minutes / 60) as nat).len())
                    =~= Seq::<char>::empty());
            }
        }
        text::push_dec_u32(&mut out, minutes / 60);
        out.push(':');
        text::push_zero_pad_u32(&mut out, minutes % 60, 2);
        proof {
            assert(out@ =~= render_delta_spec(delta_minutes as int, hour_len as int));
        }
    }
    text::from_chars(&out)
}

/// The fixed weekday header of a week block.
pub fn create_day_labels() -> (r: String)
    ensures
        r@ == "     MON     TUE     WED     THU     FRI     SAT     SUN"@,
{
    "     MON     TUE     WED     THU     FRI     SAT     SUN".to_owned()
}

/// The row label of a project: `client,code`, with `,subcode` when one
/// is present.
pub open spec fn project_label_spec(p: Project) -> Seq<char> {
    if p.spec_subcode().len() == 0 {
        p.spec_client() + seq![','] + p.spec_code()
    } else {
        p.spec_client() + seq![','] + p.spec_code() + seq![','] + p.spec_subcode()
    }
}

pub fn render_project_label(project: &Project) -> (r: String)
    ensures
        r@ == project_label_spec(*project),
{
    let mut out: Vec<char> = Vec::new();
    text::push_str_chars(&mut out, project.client().as_str());
    out.push(',');
    text::push_str_chars(&mut out, project.code().as_str());
    if !project.subcode().as_str().is_empty() {
        out.push(',');
        text::push_str_chars(&mut out, project.subcode().as_str());
    }
    proof {
        assert(out@ =~= project_label_spec(*project));
    }
    text::from_chars(&out)
}

/// Longest project row label of the list.
pub open spec fn max_label_len(ps: Seq<Project>) -> int
    decreases ps.len(),
{
    if ps.len() == 0 {
        0
    } else {
        let m = max_label_len(ps.drop_last());
        let l = project_label_spec(ps.last()).len() as int;
        if l > m { l } else { m }
    }
}

/// Width of the row-label column: four more than the longest label in
/// the render, the literal `PROJECT` row included.
pub open spec fn labels_width(ps: Seq<Project>) -> int {
    if max_label_len(ps) > 7 { 4 + max_label_len(ps) } else { 11 }
}

/// The row labels of a week block: blank, `PROJECT`, one per project,
/// `TOTALS` and `REPORT`, each padded right to the label width.
pub open spec fn project_labels_spec(ps: Seq<Project>) -> Seq<Seq<char>> {
    let w = labels_width(ps);
    seq![text::pad_right(Seq::<char>::empty(), w), text::pad_right("PROJECT"@, w)]
        + Seq::new(ps.len(), |i: int| text::pad_right(project_label_spec(ps[i]), w))
        + seq![text::pad_right("TOTALS"@, w), text::pad_right("REPORT"@, w)]
}

proof fn lemma_label_le_max(ps: Seq<Project>, i: int)
    requires
        0 <= i < ps.len(),
    ensures
        project_label_spec(ps[i]).len() <= max_label_len(ps),
        max_label_len(ps) >= 0,
    decreases ps.len(),
{
    if ps.len() > 0 {
        if i == ps.len() - 1 {
            lemma_max_label_nonneg(ps.drop_last());
        } else {
            lemma_label_le_max(ps.drop_last(), i);
            assert(ps.drop_last()[i] == ps[i]);
        }
    }
}

proof fn lemma_max_label_nonneg(ps: Seq<Project>)
    ensures
        max_label_len(ps) >= 0,
    decreases ps.len(),
{
    if ps.len() > 0 {
        lemma_max_label_nonneg(ps.drop_last());
    }
}

/// Builds the padded row labels for a week block.
pub fn create_project_labels(projects: &Vec<Project>) -> (r: Vec<String>)
    requires
        max_label_len(projects@) <= 1000000,
    ensures
        r@.len() == projects@.len() + 4,
        forall|i: int| 0 <= i < r@.len()
            ==> (#[trigger] r@[i])@ == project_labels_spec(projects@)[i],
{
    proof {
        reveal_strlit("PROJECT");
        reveal_strlit("TOTALS");
        reveal_strlit("REPORT");
    }
    let ghost ps = projects@;
    let mut labels: Vec<String> = Vec::new();
    let mut maxl: usize = 0;
    let mut i: usize = 0;
    while i < projects.len()
        invariant
            ps == projects@,
            i <= ps.len(),
            labels@.len() == i,
            max_label_len(ps) <= 1000000,
            maxl as int == max_label_len(ps.take(i as int)),
            maxl <= 1000000,
            forall|j: int| 0 <= j < i
                ==> (#[trigger] labels@[j])@ == project_label_spec(ps[j]),
        decreases ps.len() - i,
    {
        let lab = render_project_label(&projects[i]);
        proof {
            assert(ps.take(i as int + 1).drop_last() =~= ps.take(i as int));
            assert(ps.take(i as int + 1).last() == ps[i as int]);
        }
        let ll = text::to_chars(lab.as_str()).len();
        proof {
            lemma_label_le_max(ps, i as int);
        }
        if ll > maxl {
            maxl = ll;
        }
        labels.push(lab);
        i = i + 1;
    }
    proof {
        assert(ps.take(ps.len() as int) =~= ps);
    }
    let width: usize = if maxl > 7 { 4 + maxl } else { 11 };
    let mut out: Vec<String> = Vec::new();
    let mut blank: Vec<char> = Vec::new();
    text::push_repeat(&mut blank, ' ', width);
    proof {
        assert(blank@ =~= text::pad_right(Seq::<char>::empty(), width as int));
    }
    out.push(text::from_chars(&blank));
    out.push(pad_label("PROJECT", width));
    let mut i2: usize = 0;
    while i2 < labels.len()
        invariant
            labels@.len() == ps.len(),
            forall|j: int| 0 <= j < ps.len()
                ==> (#[trigger] labels@[j])@ == project_label_spec(ps[j]),
            i2 <= ps.len(),
            width as int == labels_width(ps),
            out@.len() == i2 + 2,
            out@[0]@ == text::pad_right(Seq::<char>::empty(), width as int),
            out@[1]@ == text::pad_right("PROJECT"@, width as int),
            forall|j: int| 0 <= j < i2
                ==> (#[trigger] out@[j + 2])@
                    == text::pad_right(project_label_spec(ps[j]), width as int),
        decreases ps.len() - i2,
    {
        out.push(pad_label(labels[i2].as_str(), width));
        i2 = i2 + 1;
    }
    out.push(pad_label("TOTALS", width));
    out.push(pad_label("REPORT", width));
    proof {
        assert forall|i3: int| 0 <= i3 < out@.len()
            implies (#[trigger] out@[i3])@ == project_labels_spec(ps)[i3] by {
            if 2 <= i3 < ps.len() + 2 {
                assert(out@[(i3 - 2) + 2]@
                    == text::pad_right(project_label_spec(ps[i3 - 2]), width as int));
            }
        }
    }
    out
}

/// Pads a label right with spaces to the asked width.
fn pad_label(s: &str, width: usize) -> (r: String)
    ensures
        r@ == text::pad_right(s@, width as int),
{
    let mut out: Vec<char> = Vec::new();
    text::push_str_chars(&mut out, s);
    let l = out.len();
    if l < width {
        text::push_repeat(&mut out, ' ', width - l);
    } else {
        proof {
            assert(text::repeat_char(' ', width - s@.len()) =~= Seq::<char>::empty());
        }
    }
    proof {
        assert(out@ =~= text::pad_right(s@, width as int));
    }
    text::from_chars(&out)
}

/// Seven day cells, three spaces before each, built by `f` per weekday.
pub open spec fn week_cells(f: spec_fn(int) -> Seq<char>, k: int) -> Seq<char>
    decreases k,
{
    if k <= 0 {
        Seq::empty()
    } else {
        week_cells(f, k - 1) + seq![' ', ' ', ' '] + f(k - 1)
    }
}

/// The date cell of one day: `MM/DD`.
pub open spec fn date_cell_spec(d: Date) -> Seq<char> {
    text::zero_pad(d.spec_month() as nat, 2) + seq!['/']
        + text::zero_pad(d.spec_day() as nat, 2)
}

/// The `PROJECT` row of a week block: seven `MM/DD` cells from the
/// week's Monday on, then the totals headings.
pub open spec fn dates_line_spec(mdn: int) -> Seq<char> {
    week_cells(|k: int| date_cell_spec(date_with_dn(mdn + k)), 7)
        + "   TOTALS  REPORT"@
}

/// Renders the date row of the week starting at the Monday `monday`.
pub fn render_dates_line(monday: Date) -> (r: Result<String, Error>)
    requires
        monday.valid(),
        monday.dn() % 7 == 0,
    ensures
        r is Ok <==> monday.dn() + 6 <= max_day_number(),
        r matches Ok(line) ==> line@ == dates_line_spec(monday.dn()),
        r matches Err(e) ==> e is InvalidDate,
    {
    let ghost mdn = monday.dn();
    let ghost f = |k: int| date_cell_spec(date_with_dn(mdn + k));
    let mut out: Vec<char> = Vec::new();
    let mut d = monday;
    let mut k: u8 = 0;
    proof {
        crate::model::lemma_date_with_dn(monday);
    }
    loop
        invariant_except_break
            k < 7,
            d.valid(),
            d.dn() == mdn + k,
            d == date_with_dn(mdn + k),
            out@ == week_cells(f, k as int),
        invariant
            mdn == monday.dn(),
            mdn % 7 == 0,
            monday.valid(),
            f == (|k2: int| date_cell_spec(date_with_dn(mdn + k2))),
        ensures
            out@ == week_cells(f, 7),
            mdn + 6 <= max_day_number(),
        decreases 7 - k,
    {
        out.push(' ');
        out.push(' ');
        out.push(' ');
        text::push_zero_pad_u32(&mut out, d.month() as u32, 2);
        out.push('/');
        text::push_zero_pad_u32(&mut out, d.day() as u32, 2);
        proof {
            assert(f((k as int + 1) - 1) == date_cell_spec(d));
            assert(out@ =~= week_cells(f, k as int + 1));
        }
        if d.is_sunday() {
            proof {
                assert(k == 6);
                d.lemma_dn_bounds();
            }
            break;
        }
        proof {
            assert(k < 6);
        }
        match d.next() {
            Ok(nd) => {
                proof {
                    crate::model::lemma_date_with_dn(nd);
                }
                d = nd;
            }
            Err(e) => {
                proof {
                    assert(d.dn() == max_day_number());
                    assert(mdn + 6 > max_day_number());
                }
                return Err(e);
            }
        }
        k = k + 1;
    }
    text::push_str_chars(&mut out, "   TOTALS  REPORT");
    proof {
        assert(out@ =~= dates_line_spec(mdn));
    }
    Ok(text::from_chars(&out))
}

/// A row of seven cells rendered by the given bucket filters, with the
/// weekday name of day `k` as the day filter.
pub open spec fn sums_cells_spec(
    es: Seq<(Key, u32)>, projf: Option<Project>, billable: bool,
) -> spec_fn(int) -> Seq<char> {
    |k: int| render_time_spec(
        wsum(es, Some(day_abbrev_spec(k)), projf, billable), 2)
}

/// One project's row of a week block: its minutes on each of the seven
/// days, then the week's raw and billable totals for the project.
pub open spec fn times_line_spec(es: Seq<(Key, u32)>, p: Project) -> Seq<char> {
    week_cells(sums_cells_spec(es, Some(p), false), 7)
        + seq![' ', ' ', ' '] + render_time_spec(wsum(es, None, Some(p), false), 3)
        + seq![' ', ' '] + render_time_spec(wsum(es, None, Some(p), true), 3)
}

/// The `TOTALS` row: raw day sums, then the raw week sum.
pub open spec fn totals_line_spec(es: Seq<(Key, u32)>) -> Seq<char> {
    week_cells(sums_cells_spec(es, None, false), 7)
        + seq![' ', ' ', ' '] + render_time_spec(wsum(es, None, None, false), 3)
}

/// The `REPORT` row: billable day sums, then the billable week sum.
pub open spec fn billables_line_spec(es: Seq<(Key, u32)>) -> Seq<char> {
    week_cells(sums_cells_spec(es, None, true), 7)
        + seq![' ', ' ', ' '] + render_time_spec(wsum(es, None, None, true), 3)
}

/// Renders seven day cells for the given filters.
fn render_sums_cells(week_data: &WeekData, projf: Option<&Project>, billable: bool)
    -> (r: Vec<char>)
    requires
        wsum(week_data.spec_entries(), None, None, false) <= u32::MAX,
    ensures
        r@ == week_cells(sums_cells_spec(
            week_data.spec_entries(),
            match projf {
                Some(p) => Some(*p),
                None => None,
            },
            billable), 7),
{
    let ghost es = week_data.spec_entries();
    let ghost gprojf: Option<Project> = match projf {
        Some(p) => Some(*p),
        None => None,
    };
    let ghost f = sums_cells_spec(es, gprojf, billable);
    let mut out: Vec<char> = Vec::new();
    let mut k: u8 = 0;
    while k < 7
        invariant
            k <= 7,
            es == week_data.spec_entries(),
            gprojf == (match projf {
                Some(p) => Some(*p),
                None => None,
            }),
            wsum(es, None, None, false) <= u32::MAX,
            f == sums_cells_spec(es, gprojf, billable),
            out@ == week_cells(f, k as int),
        decreases 7 - k,
    {
        let day = day_abbrev_of(k);
        let minutes = week_data.query(Some(day.as_str()), projf, billable);
        let cell = render_time(minutes, 2);
        out.push(' ');
        out.push(' ');
        out.push(' ');
        text::push_str_chars(&mut out, cell.as_str());
        k = k + 1;
        proof {
            assert(f(k as int - 1) == render_time_spec(
                wsum(es, Some(day_abbrev_spec(k as int - 1)), gprojf, billable), 2));
            assert(out@ =~= week_cells(f, k as int));
        }
    }
    out
}

/// The three-letter weekday name of index `k`, 0 for Monday.
fn day_abbrev_of(k: u8) -> (r: String)
    requires
        k < 7,
    ensures
        r@ == day_abbrev_spec(k as int),
{
    if k == 0 { "MON".to_owned() }
    else if k == 1 { "TUE".to_owned() }
    else if k == 2 { "WED".to_owned() }
    else if k == 3 { "THU".to_owned() }
    else if k == 4 { "FRI".to_owned() }
    else if k == 5 { "SAT".to_owned() }
    else { "SUN".to_owned() }
}

/// Renders one project's row of a week block.
pub fn render_times_line(project: &Project, week_data: &WeekData) -> (r: String)
    requires
        wsum(week_data.spec_entries(), None, None, false) <= u32::MAX,
    ensures
        r@ == times_line_spec(week_data.spec_entries(), *project),
{
    let mut out = render_sums_cells(week_data, Some(project), false);
    let total_time = render_time(week_data.project_total(project), 3);
    let total_billable = render_time(week_data.project_billable(project), 3);
    out.push(' ');
    out.push(' ');
    out.push(' ');
    text::push_str_chars(&mut out, total_time.as_str());
    out.push(' ');
    out.push(' ');
    text::push_str_chars(&mut out, total_billable.as_str());
    proof {
        assert(out@ =~= times_line_spec(week_data.spec_entries(), *project));
    }
    text::from_chars(&out)
}

/// Renders the `TOTALS` row of a week block.
pub fn render_totals_line(week_data: &WeekData) -> (r: String)
    requires
        wsum(week_data.spec_entries(), None, None, false) <= u32::MAX,
    ensures
        r@ == totals_line_spec(week_data.spec_entries()),
{
    let mut out = render_sums_cells(week_data, None, false);
    let total_time = render_time(week_data.week_total(), 3);
    out.push(' ');
    out.push(' ');
    out.push(' ');
    text::push_str_chars(&mut out, total_time.as_str());
    proof {
        assert(out@ =~= totals_line_spec(week_data.spec_entries()));
    }
    text::from_chars(&out)
}

/// Renders the `REPORT` row of a week block.
pub fn render_billables_line(week_data: &WeekData) -> (r: String)
    requires
        wsum(week_data.spec_entries(), None, None, false) <= u32::MAX,
    ensures
        r@ == billables_line_spec(week_data.spec_entries()),
{
    let mut out = render_sums_cells(week_data, None, true);
    let total_time = render_time(week_data.week_billable(), 3);
    out.push(' ');
    out.push(' ');
    out.push(' ');
    text::push_str_chars(&mut out, total_time.as_str());
    proof {
        assert(out@ =~= billables_line_spec(week_data.spec_entries()));
    }
    text::from_chars(&out)
}

/// Cell builders that agree on the seven days build the same row.
proof fn lemma_week_cells_eq(f: spec_fn(int) -> Seq<char>, g: spec_fn(int) -> Seq<char>, k: int)
    requires
        forall|j: int| 0 <= j < k ==> #[trigger] f(j) == g(j),
    ensures
        week_cells(f, k) == week_cells(g, k),
    decreases k,
{
    if k > 0 {
        lemma_week_cells_eq(f, g, k - 1);
    }
}

/// A week bucket whose raw total is zero renders the right-justified
/// dash in all seven day cells and in the week total columns, on the
/// project rows and on the `TOTALS` and `REPORT` rows alike: every
/// filtered sum of such a bucket is zero, and a zero sum renders as
/// the dash form.  Through the contract of `create_report`, a report
/// over entries that book no minutes shows `-` in every cell.
pub proof fn lemma_zero_bucket_renders_dashes(es: Seq<(Key, u32)>, p: Project)
    requires
        wsum(es, None, None, false) == 0,
    ensures
        render_time_spec(0, 2) == text::pad_left(seq!['-'], 5),
        render_time_spec(0, 3) == text::pad_left(seq!['-'], 6),
        times_line_spec(es, p) == week_cells((|k: int| render_time_spec(0, 2)), 7)
            + seq![' ', ' ', ' '] + render_time_spec(0, 3)
            + seq![' ', ' '] + render_time_spec(0, 3),
        totals_line_spec(es) == week_cells((|k: int| render_time_spec(0, 2)), 7)
            + seq![' ', ' ', ' '] + render_time_spec(0, 3),
        billables_line_spec(es) == week_cells((|k: int| render_time_spec(0, 2)), 7)
            + seq![' ', ' ', ' '] + render_time_spec(0, 3),
{
    lemma_wsum_nonneg_le(es, None, Some(p), false);
    lemma_wsum_nonneg_le(es, None, Some(p), true);
    lemma_wsum_nonneg_le(es, None, None, true);
    let dash = |k: int| render_time_spec(0, 2);
    assert forall|k: int| 0 <= k < 7
        implies #[trigger] sums_cells_spec(es, Some(p), false)(k) == dash(k) by {
        lemma_wsum_nonneg_le(es, Some(day_abbrev_spec(k)), Some(p), false);
    }
    lemma_week_cells_eq(sums_cells_spec(es, Some(p), false), dash, 7);
    assert forall|k: int| 0 <= k < 7
        implies #[trigger] sums_cells_spec(es, None, false)(k) == dash(k) by {
        lemma_wsum_nonneg_le(es, Some(day_abbrev_spec(k)), None, false);
    }
    lemma_week_cells_eq(sums_cells_spec(es, None, false), dash, 7);
    assert forall|k: int| 0 <= k < 7
        implies #[trigger] sums_cells_spec(es, None, true)(k) == dash(k) by {
        lemma_wsum_nonneg_le(es, Some(day_abbrev_spec(k)), None, true);
    }
    lemma_week_cells_eq(sums_cells_spec(es, None, true), dash, 7);
}

// --- the grand totals section ---

pub open spec fn cc_len(p: Project) -> int {
    p.spec_client().len() as int + p.spec_code().len() as int
}

pub open spec fn max_cc_len(ps: Seq<Project>) -> int
    decreases ps.len(),
{
    if ps.len() == 0 {
        0
    } else {
        let m = max_cc_len(ps.drop_last());
        if cc_len(ps.last()) > m { cc_len(ps.last()) } else { m }
    }
}

/// Label width of the grand section: three more than the longest
/// `client` plus `code` pair.
pub open spec fn grand_width(ps: Seq<Project>) -> int {
    3 + max_cc_len(ps)
}

pub open spec fn grand_header_spec(lw: int) -> Seq<char> {
    text::pad_right("PROJECT"@, lw) + seq![' ', ' ', ' '] + "TOTALS"@
        + seq![' ', ' ', ' '] + "REPORT"@
}

pub open spec fn grand_row_spec(p: Project, es: Seq<(Key, u32)>, lw: int) -> Seq<char> {
    text::pad_right(p.spec_client() + seq![','] + p.spec_code(), lw)
        + seq![' ', ' ', ' '] + render_time_spec(wsum(es, None, Some(p), false), 3)
        + seq![' ', ' ', ' '] + render_time_spec(wsum(es, None, Some(p), true), 3)
}

/// The grand-totals lines: two blanks, the header, a row per project,
/// the `TOTALS`, `REPORT` and signed `DELTA` rows.
pub open spec fn grand_lines_spec(
    ps: Seq<Project>, es: Seq<(Key, u32)>, expected: int,
) -> Seq<Seq<char>> {
    let lw = grand_width(ps);
    seq![Seq::<char>::empty(), Seq::<char>::empty(), grand_header_spec(lw)]
        + Seq::new(ps.len(), |i: int| grand_row_spec(ps[i], es, lw))
        + seq![
            text::pad_right("TOTALS"@, lw) + seq![' ', ' ', ' ']
                + render_time_spec(wsum(es, None, None, false), 3),
            text::pad_right("REPORT"@, lw) + seq![' ', ' ', ' ']
                + render_time_spec(wsum(es, None, None, true), 3),
            text::pad_right("DELTA"@, lw) + seq![' ', ' ', ' ']
                + render_delta_spec(wsum(es, None, None, true) - expected, 3),
        ]
}

proof fn lemma_cc_le_max(ps: Seq<Project>, i: int)
    requires
        0 <= i < ps.len(),
    ensures
        cc_len(ps[i]) <= max_cc_len(ps),
        max_cc_len(ps) >= 0,
    decreases ps.len(),
{
    if ps.len() > 0 {
        if i == ps.len() - 1 {
            lemma_max_cc_nonneg(ps.drop_last());
        } else {
            lemma_cc_le_max(ps.drop_last(), i);
            assert(ps.drop_last()[i] == ps[i]);
        }
    }
}

proof fn lemma_max_cc_nonneg(ps: Seq<Project>)
    ensures
        max_cc_len(ps) >= 0,
    decreases ps.len(),
{
    if ps.len() > 0 {
        lemma_max_cc_nonneg(ps.drop_last());
    }
}

/// Renders the grand-totals section for the whole date range.
pub fn render_grand_totals(
    projects: &Vec<Project>, totals_data: &WeekData, expected_time: u32,
) -> (r: Vec<String>)
    requires
        wsum(totals_data.spec_entries(), None, None, false) <= 0x7fffffff,
        expected_time <= 0x7fffffff,
        max_cc_len(projects@) <= 1000000,
    ensures
        r@.len() == projects@.len() + 6,
        forall|i: int| 0 <= i < r@.len() ==> (#[trigger] r@[i])@
            == grand_lines_spec(
                projects@, totals_data.spec_entries(), expected_time as int)[i],
{
    proof {
        reveal_strlit("PROJECT");
        reveal_strlit("TOTALS");
        reveal_strlit("REPORT");
        reveal_strlit("DELTA");
        lemma_max_cc_nonneg(projects@);
        lemma_wsum_nonneg_le(totals_data.spec_entries(), None, None, true);
    }
    let ghost ps = projects@;
    let ghost es = totals_data.spec_entries();
    let ghost expected = expected_time as int;
    let mut maxcc: usize = 0;
    let mut i: usize = 0;
    while i < projects.len()
        invariant
            ps == projects@,
            i <= ps.len(),
            max_cc_len(ps) <= 1000000,
            maxcc as int == max_cc_len(ps.take(i as int)),
            maxcc <= 1000000,
        decreases ps.len() - i,
    {
        let c1 = text::to_chars(projects[i].client().as_str()).len();
        let c2 = text::to_chars(projects[i].code().as_str()).len();
        proof {
            lemma_cc_le_max(ps, i as int);
            assert(ps.take(i as int + 1).drop_last() =~= ps.take(i as int));
            assert(ps.take(i as int + 1).last() == ps[i as int]);
        }
        if c1 + c2 > maxcc {
            maxcc = c1 + c2;
        }
        i = i + 1;
    }
    proof {
        assert(ps.take(ps.len() as int) =~= ps);
    }
    let lw: usize = 3 + maxcc;
    let mut answer: Vec<String> = Vec::new();
    answer.push(String::new());
    answer.push(String::new());
    let mut header: Vec<char> = Vec::new();
    text::push_str_chars(&mut header, "PROJECT");
    text::push_repeat(&mut header, ' ', if lw > 7 { lw - 7 } else { 0 });
    text::push_str_chars(&mut header, "   TOTALS   REPORT");
    proof {
        assert("   TOTALS   REPORT"@
            =~= seq![' ', ' ', ' '] + "TOTALS"@ + seq![' ', ' ', ' '] + "REPORT"@) by {
            reveal_strlit("   TOTALS   REPORT");
        }
        assert(header@ =~= grand_header_spec(lw as int));
    }
    answer.push(text::from_chars(&header));
    let mut j: usize = 0;
    while j < projects.len()
        invariant
            ps == projects@,
            es == totals_data.spec_entries(),
            expected == expected_time as int,
            wsum(es, None, None, false) <= 0x7fffffff,
            expected_time <= 0x7fffffff,
            j <= ps.len(),
            lw as int == grand_width(ps),
            3 <= lw <= 1000003,
            answer@.len() == j + 3,
            forall|x: int| 0 <= x < answer@.len()
                ==> (#[trigger] answer@[x])@ == grand_lines_spec(ps, es, expected)[x],
        decreases ps.len() - j,
    {
        let p = &projects[j];
        let mut row: Vec<char> = Vec::new();
        text::push_str_chars(&mut row, p.client().as_str());
        row.push(',');
        text::push_str_chars(&mut row, p.code().as_str());
        let l = row.len();
        if l < lw {
            text::push_repeat(&mut row, ' ', lw - l);
        } else {
            proof {
                lemma_cc_le_max(ps, j as int);
                assert(text::repeat_char(' ',
                    lw - (p.spec_client() + seq![','] + p.spec_code()).len())
                    =~= Seq::<char>::empty());
            }
        }
        row.push(' ');
        row.push(' ');
        row.push(' ');
        let t1 = render_time(totals_data.project_total(p), 3);
        text::push_str_chars(&mut row, t1.as_str());
        row.push(' ');
        row.push(' ');
        row.push(' ');
        let t2 = render_time(totals_data.project_billable(p), 3);
        text::push_str_chars(&mut row, t2.as_str());
        proof {
            lemma_cc_le_max(ps, j as int);
            assert(row@ =~= grand_row_spec(ps[j as int], es, lw as int));
        }
        answer.push(text::from_chars(&row));
        j = j + 1;
    }
    let wt = totals_data.week_total();
    let wb = totals_data.week_billable();
    let mut trow: Vec<char> = Vec::new();
    text::push_str_chars(&mut trow, "TOTALS");
    text::push_repeat(&mut trow, ' ', if lw > 6 { lw - 6 } else { 0 });
    trow.push(' ');
    trow.push(' ');
    trow.push(' ');
    let t3 = render_time(wt, 3);
    text::push_str_chars(&mut trow, t3.as_str());
    proof {
        assert(trow@ =~= text::pad_right("TOTALS"@, lw as int) + seq![' ', ' ', ' ']
            + render_time_spec(wsum(es, None, None, false), 3));
    }
    answer.push(text::from_chars(&trow));
    let mut rrow: Vec<char> = Vec::new();
    text::push_str_chars(&mut rrow, "REPORT");
    text::push_repeat(&mut rrow, ' ', if lw > 6 { lw - 6 } else { 0 });
    rrow.push(' ');
    rrow.push(' ');
    rrow.push(' ');
    let t4 = render_time(wb, 3);
    text::push_str_chars(&mut rrow, t4.as_str());
    proof {
        assert(rrow@ =~= text::pad_right("REPORT"@, lw as int) + seq![' ', ' ', ' ']
            + render_time_spec(wsum(es, None, None, true), 3));
    }
    answer.push(text::from_chars(&rrow));
    proof {
        lemma_wsum_nonneg_le(es, None, None, true);
    }
    let delta: i32 = (wb as i32) - (expected_time as i32);
    let mut drow: Vec<char> = Vec::new();
    text::push_str_chars(&mut drow, "DELTA");
    text::push_repeat(&mut drow, ' ', if lw > 5 { lw - 5 } else { 0 });
    drow.push(' ');
    drow.push(' ');
    drow.push(' ');
    let t5 = render_delta(delta, 3);
    text::push_str_chars(&mut drow, t5.as_str());
    proof {
        assert(drow@ =~= text::pad_right("DELTA"@, lw as int) + seq![' ', ' ', ' ']
            + render_delta_spec(wsum(es, None, None, true) - expected, 3));
    }
    answer.push(text::from_chars(&drow));
    proof {
        assert forall|x: int| 0 <= x < answer@.len()
            implies (#[trigger] answer@[x])@ == grand_lines_spec(ps, es, expected)[x] by {
        }
    }
    answer
}

// --- computing a report's data ---

/// Whether an allocation's project counts toward `p` in the given
/// mode: by full identity in `Detail`, with subcodes folded together
/// in `Summary`.
pub open spec fn proj_match_mode(q: Project, p: Project, mode: ReportMode) -> bool {
    match mode {
        ReportMode::Detail => Project::same(q, p),
        ReportMode::Summary => q.spec_client() == p.spec_client()
            && q.spec_code() == p.spec_code() && p.spec_subcode().len() == 0,
    }
}

pub open spec fn adj_allocs_minutes(pts: Seq<ProjectTimes>, p: Project, mode: ReportMode) -> int
    decreases pts.len(),
{
    if pts.len() == 0 {
        0
    } else {
        adj_allocs_minutes(pts.drop_last(), p, mode)
            + if proj_match_mode(pts.last().spec_project(), p, mode) {
                ranges_total(pts.last().spec_ranges())
            } else {
                0
            }
    }
}

/// Minutes an entry books against `(day, p)`, read in the given mode.
pub open spec fn adj_day_key_minutes(
    e: DayEntry, day: Seq<char>, p: Project, mode: ReportMode,
) -> int {
    if day == day_abbrev_spec(e.spec_date().dn() % 7) {
        adj_allocs_minutes(e.spec_projects(), p, mode)
    } else {
        0
    }
}

/// Whether some allocation counts toward the project in the mode.
pub open spec fn allocs_have_mode(pts: Seq<ProjectTimes>, p: Project, mode: ReportMode) -> bool {
    exists|j: int| 0 <= j < pts.len()
        && proj_match_mode((#[trigger] pts[j]).spec_project(), p, mode)
}

pub open spec fn adj_day_has_key(
    e: DayEntry, day: Seq<char>, p: Project, mode: ReportMode,
) -> bool {
    day == day_abbrev_spec(e.spec_date().dn() % 7)
        && allocs_have_mode(e.spec_projects(), p, mode)
}

/// Minutes the whole entry list books against `(day, p)`.
pub open spec fn entries_minutes(
    es: Seq<DayEntry>, day: Seq<char>, p: Project, mode: ReportMode,
) -> int
    decreases es.len(),
{
    if es.len() == 0 {
        0
    } else {
        entries_minutes(es.drop_last(), day, p, mode)
            + adj_day_key_minutes(es.last(), day, p, mode)
    }
}

pub open spec fn entries_has_key(
    es: Seq<DayEntry>, day: Seq<char>, p: Project, mode: ReportMode,
) -> bool {
    exists|i: int| 0 <= i < es.len()
        && adj_day_has_key(#[trigger] es[i], day, p, mode)
}

/// Minutes booked against `(day, p)` by the entries of week `w`.
pub open spec fn week_minutes(
    es: Seq<DayEntry>, w: int, day: Seq<char>, p: Project, mode: ReportMode,
) -> int
    decreases es.len(),
{
    if es.len() == 0 {
        0
    } else {
        week_minutes(es.drop_last(), w, day, p, mode)
            + if es.last().spec_date().dn() / 7 == w {
                adj_day_key_minutes(es.last(), day, p, mode)
            } else {
                0
            }
    }
}

pub open spec fn week_has_key(
    es: Seq<DayEntry>, w: int, day: Seq<char>, p: Project, mode: ReportMode,
) -> bool {
    exists|i: int| 0 <= i < es.len() && (#[trigger] es[i]).spec_date().dn() / 7 == w
        && adj_day_has_key(es[i], day, p, mode)
}

/// All minutes the entry list books.
pub open spec fn total_minutes(es: Seq<DayEntry>) -> int
    decreases es.len(),
{
    if es.len() == 0 {
        0
    } else {
        total_minutes(es.drop_last()) + entry_total(es.last())
    }
}

/// Count of weekday entries at or before the last entry's date.
pub open spec fn weekdays_spec(es: Seq<DayEntry>) -> int {
    if es.len() == 0 {
        0
    } else {
        count_weekdays(es, es.last().spec_date().dn())
    }
}

pub open spec fn count_weekdays(es: Seq<DayEntry>, last_dn: int) -> int
    decreases es.len(),
{
    if es.len() == 0 {
        0
    } else {
        count_weekdays(es.drop_last(), last_dn)
            + if es.last().spec_date().dn() <= last_dn
                && es.last().spec_date().dn() % 7 <= 4 {
                1int
            } else {
                0int
            }
    }
}

/// An entry read in a mode books the same minutes as its adjusted
/// copy read plainly.
proof fn lemma_adjusted_allocs(
    adj: Seq<ProjectTimes>, orig: Seq<ProjectTimes>, mode: ReportMode,
)
    requires
        adj.len() == orig.len(),
        forall|j: int| 0 <= j < orig.len() ==> {
            let a = #[trigger] adj[j];
            let b = orig[j];
            &&& a.spec_ranges() == b.spec_ranges()
            &&& a.spec_project().spec_client() == b.spec_project().spec_client()
            &&& a.spec_project().spec_code() == b.spec_project().spec_code()
            &&& (mode is Summary
                ==> a.spec_project().spec_subcode() == Seq::<char>::empty())
            &&& (mode is Detail
                ==> a.spec_project().spec_subcode() == b.spec_project().spec_subcode())
        },
    ensures
        forall|p: Project| #[trigger] allocs_minutes(adj, p)
            == adj_allocs_minutes(orig, p, mode),
        allocs_total(adj) == allocs_total(orig),
        forall|p: Project| #[trigger] allocs_have(adj, p)
            <==> allocs_have_mode(orig, p, mode),
    decreases orig.len(),
{
    if orig.len() > 0 {
        lemma_adjusted_allocs(adj.drop_last(), orig.drop_last(), mode);
        assert(forall|j: int| 0 <= j < orig.len() - 1
            ==> #[trigger] adj.drop_last()[j] == adj[j]
                && orig.drop_last()[j] == orig[j]);
        assert(adj.last() == adj[orig.len() - 1]);
        assert(orig.last() == orig[orig.len() - 1]);
        assert forall|p: Project| #[trigger] allocs_minutes(adj, p)
            == adj_allocs_minutes(orig, p, mode) by {
            assert(allocs_minutes(adj, p)
                == allocs_minutes(adj.drop_last(), p)
                    + if Project::same(adj.last().spec_project(), p) {
                        ranges_total(adj.last().spec_ranges())
                    } else {
                        0
                    });
            assert(adj_allocs_minutes(orig, p, mode)
                == adj_allocs_minutes(orig.drop_last(), p, mode)
                    + if proj_match_mode(orig.last().spec_project(), p, mode) {
                        ranges_total(orig.last().spec_ranges())
                    } else {
                        0
                    });
            let a = adj[orig.len() - 1];
            let b = orig[orig.len() - 1];
            assert(a.spec_project().spec_client() == b.spec_project().spec_client());
            assert(p.spec_subcode().len() == 0
                ==> p.spec_subcode() =~= Seq::<char>::empty());
            assert(Project::same(a.spec_project(), p)
                <==> proj_match_mode(b.spec_project(), p, mode));
        }
        assert forall|p: Project| #[trigger] allocs_have(adj, p)
            <==> allocs_have_mode(orig, p, mode) by {
            if allocs_have(adj, p) {
                let j = choose|j: int| 0 <= j < adj.len()
                    && Project::same((#[trigger] adj[j]).spec_project(), p);
                assert(proj_match_mode(orig[j].spec_project(), p, mode));
                assert(allocs_have_mode(orig, p, mode));
            }
            if allocs_have_mode(orig, p, mode) {
                let j = choose|j: int| 0 <= j < orig.len()
                    && proj_match_mode(
                        (#[trigger] orig[j]).spec_project(), p, mode);
                let a = adj[j];
                let b = orig[j];
                assert(a.spec_project().spec_client() == b.spec_project().spec_client());
                assert(p.spec_subcode().len() == 0
                    ==> p.spec_subcode() =~= Seq::<char>::empty());
                assert(Project::same(adj[j].spec_project(), p));
                assert(allocs_have(adj, p));
            }
        }
    } else {
        assert(adj =~= Seq::<ProjectTimes>::empty());
    }
}

/// Reading allocations in `Detail` mode is reading them plainly.
proof fn lemma_allocs_minutes_detail(pts: Seq<ProjectTimes>)
    ensures
        forall|p: Project| #[trigger] adj_allocs_minutes(pts, p, ReportMode::Detail)
            == allocs_minutes(pts, p),
        forall|p: Project| #[trigger] allocs_have_mode(pts, p, ReportMode::Detail)
            == allocs_have(pts, p),
    decreases pts.len(),
{
    if pts.len() > 0 {
        lemma_allocs_minutes_detail(pts.drop_last());
        assert forall|p: Project| #[trigger] adj_allocs_minutes(pts, p, ReportMode::Detail)
            == allocs_minutes(pts, p) by {
            assert(adj_allocs_minutes(pts, p, ReportMode::Detail)
                == adj_allocs_minutes(pts.drop_last(), p, ReportMode::Detail)
                    + if proj_match_mode(
                        pts.last().spec_project(), p, ReportMode::Detail) {
                        ranges_total(pts.last().spec_ranges())
                    } else {
                        0
                    });
            assert(allocs_minutes(pts, p)
                == allocs_minutes(pts.drop_last(), p)
                    + if Project::same(pts.last().spec_project(), p) {
                        ranges_total(pts.last().spec_ranges())
                    } else {
                        0
                    });
        }
    }
    assert forall|p: Project| #[trigger] allocs_have_mode(pts, p, ReportMode::Detail)
        == allocs_have(pts, p) by {
        if allocs_have_mode(pts, p, ReportMode::Detail) {
            let j = choose|j: int| 0 <= j < pts.len()
                && proj_match_mode(
                    (#[trigger] pts[j]).spec_project(), p, ReportMode::Detail);
            assert(Project::same(pts[j].spec_project(), p));
        }
        if allocs_have(pts, p) {
            let j = choose|j: int| 0 <= j < pts.len()
                && Project::same((#[trigger] pts[j]).spec_project(), p);
            assert(proj_match_mode(pts[j].spec_project(), p, ReportMode::Detail));
        }
    }
}

/// A `Summary` report is the `Detail` report of the collapsed ledger:
/// reading an entry in `Summary` mode books the same minutes against
/// every key, and fills the same keys, as reading its subcode-collapsed
/// copy plainly — and the report rows are collected from the collapsed
/// projects too, so the two reports agree line for line.
pub proof fn lemma_summary_reads_collapsed(
    a: DayEntry, b: DayEntry, day: Seq<char>, p: Project,
)
    requires
        crate::model::collapses(a, b),
    ensures
        adj_day_key_minutes(a, day, p, ReportMode::Detail)
            == adj_day_key_minutes(b, day, p, ReportMode::Summary),
        adj_day_has_key(a, day, p, ReportMode::Detail)
            == adj_day_has_key(b, day, p, ReportMode::Summary),
{
    lemma_adjusted_allocs(a.spec_projects(), b.spec_projects(), ReportMode::Summary);
    lemma_allocs_minutes_detail(a.spec_projects());
}

/// The data a rendered report is built from.
pub struct ReportData {
    weeks: Vec<(u32, WeekData)>,
    projects: Vec<Project>,
    dates: DateRange,
    totals: WeekData,
    weekdays: usize,
}

impl ReportData {
    pub closed spec fn spec_weeks(self) -> Seq<(u32, WeekData)> {
        self.weeks@
    }

    pub closed spec fn spec_projects(self) -> Seq<Project> {
        self.projects@
    }

    pub closed spec fn spec_dates(self) -> DateRange {
        self.dates
    }

    pub closed spec fn spec_totals(self) -> WeekData {
        self.totals
    }

    pub closed spec fn spec_weekdays(self) -> int {
        self.weekdays as int
    }
}

/// Records the validity of every entry's ranges.
fn note_entries_valid(es: &Vec<DayEntry>)
    ensures
        forall|i: int| 0 <= i < es@.len()
            ==> entry_ranges_valid((#[trigger] es@[i]).spec_projects()),
{
    let mut i: usize = 0;
    while i < es.len()
        invariant
            i <= es@.len(),
            forall|j: int| 0 <= j < i
                ==> entry_ranges_valid((#[trigger] es@[j]).spec_projects()),
        decreases es@.len() - i,
    {
        note_entry_ranges_valid(&es[i]);
        i = i + 1;
    }
}

proof fn lemma_entry_total_nonneg(es: Seq<DayEntry>, i: int)
    requires
        forall|j: int| 0 <= j < es.len()
            ==> entry_ranges_valid((#[trigger] es[j]).spec_projects()),
        0 <= i <= es.len(),
    ensures
        0 <= total_minutes(es.take(i)) <= total_minutes(es),
    decreases es.len() - i,
{
    lemma_total_minutes_nonneg(es.take(i));
    if i == es.len() {
        assert(es.take(i) =~= es);
    } else {
        lemma_entry_total_nonneg(es, i + 1);
        assert(es.take(i + 1).drop_last() =~= es.take(i));
        assert(es.take(i + 1).last() == es[i]);
        lemma_at_nonneg(es[i].spec_projects());
    }
}

proof fn lemma_total_minutes_nonneg(es: Seq<DayEntry>)
    requires
        forall|j: int| 0 <= j < es.len()
            ==> entry_ranges_valid((#[trigger] es[j]).spec_projects()),
    ensures
        0 <= total_minutes(es),
    decreases es.len(),
{
    if es.len() > 0 {
        assert(forall|j: int| 0 <= j < es.drop_last().len()
            ==> entry_ranges_valid((#[trigger] es.drop_last()[j]).spec_projects()));
        lemma_total_minutes_nonneg(es.drop_last());
        lemma_at_nonneg(es.last().spec_projects());
    }
}

/// One step of the aggregation sums.
proof fn lemma_agg_step(es: Seq<DayEntry>, i: int)
    requires
        0 <= i < es.len(),
    ensures
        forall|day: Seq<char>, p: Project, mode: ReportMode|
            #[trigger] entries_minutes(es.take(i + 1), day, p, mode)
                == entries_minutes(es.take(i), day, p, mode)
                    + adj_day_key_minutes(es[i], day, p, mode),
        forall|w: int, day: Seq<char>, p: Project, mode: ReportMode|
            #[trigger] week_minutes(es.take(i + 1), w, day, p, mode)
                == week_minutes(es.take(i), w, day, p, mode)
                    + if es[i].spec_date().dn() / 7 == w {
                        adj_day_key_minutes(es[i], day, p, mode)
                    } else {
                        0
                    },
        total_minutes(es.take(i + 1)) == total_minutes(es.take(i)) + entry_total(es[i]),
        forall|day: Seq<char>, p: Project, mode: ReportMode|
            #[trigger] entries_has_key(es.take(i + 1), day, p, mode)
                <==> (entries_has_key(es.take(i), day, p, mode)
                    || adj_day_has_key(es[i], day, p, mode)),
        forall|w: int, day: Seq<char>, p: Project, mode: ReportMode|
            #[trigger] week_has_key(es.take(i + 1), w, day, p, mode)
                <==> (week_has_key(es.take(i), w, day, p, mode)
                    || (es[i].spec_date().dn() / 7 == w
                        && adj_day_has_key(es[i], day, p, mode))),
{
    let t0 = es.take(i);
    let t1 = es.take(i + 1);
    assert(t1.drop_last() =~= t0);
    assert(t1.last() == es[i]);
    assert forall|day: Seq<char>, p: Project, mode: ReportMode|
        #[trigger] entries_has_key(t1, day, p, mode)
            <==> (entries_has_key(t0, day, p, mode)
                || adj_day_has_key(es[i], day, p, mode)) by {
        if entries_has_key(t1, day, p, mode) {
            let j = choose|j: int| 0 <= j < t1.len()
                && adj_day_has_key(#[trigger] t1[j], day, p, mode);
            if j < i {
                assert(adj_day_has_key(t0[j], day, p, mode));
            }
        }
        if entries_has_key(t0, day, p, mode) {
            let j = choose|j: int| 0 <= j < t0.len()
                && adj_day_has_key(#[trigger] t0[j], day, p, mode);
            assert(adj_day_has_key(t1[j], day, p, mode));
        }
        if adj_day_has_key(es[i], day, p, mode) {
            assert(adj_day_has_key(t1[i], day, p, mode));
        }
    }
    assert forall|w: int, day: Seq<char>, p: Project, mode: ReportMode|
        #[trigger] week_has_key(t1, w, day, p, mode)
            <==> (week_has_key(t0, w, day, p, mode)
                || (es[i].spec_date().dn() / 7 == w
                    && adj_day_has_key(es[i], day, p, mode))) by {
        if week_has_key(t1, w, day, p, mode) {
            let j = choose|j: int| 0 <= j < t1.len()
                && (#[trigger] t1[j]).spec_date().dn() / 7 == w
                && adj_day_has_key(t1[j], day, p, mode);
            if j < i {
                assert(t0[j].spec_date().dn() / 7 == w
                    && adj_day_has_key(t0[j], day, p, mode));
            }
        }
        if week_has_key(t0, w, day, p, mode) {
            let j = choose|j: int| 0 <= j < t0.len()
                && (#[trigger] t0[j]).spec_date().dn() / 7 == w
                && adj_day_has_key(t0[j], day, p, mode);
            assert(t1[j].spec_date().dn() / 7 == w
                && adj_day_has_key(t1[j], day, p, mode));
        }
        if es[i].spec_date().dn() / 7 == w && adj_day_has_key(es[i], day, p, mode) {
            assert(t1[i].spec_date().dn() / 7 == w
                && adj_day_has_key(t1[i], day, p, mode));
        }
    }
}

/// Gathers the report's aggregates: the per-week buckets covering the
/// date range, the grand-totals bucket, and the expected-weekday count.
fn compute_report_data(
    dates: &DateRange, entries: &Vec<DayEntry>, projects: Vec<Project>, mode: ReportMode,
) -> (r: ReportData)
    requires
        total_minutes(entries@) <= 0x7fffffff,
        forall|i: int| 0 <= i < entries@.len() ==> dates.spec_first().dn()
            <= (#[trigger] entries@[i]).spec_date().dn() <= dates.spec_last().dn(),
        dates.spec_first().valid(),
        dates.spec_last().valid(),
    ensures
        r.spec_dates() == *dates,
        r.spec_projects() == projects@,
        r.spec_weekdays() == weekdays_spec(entries@),
        r.spec_weeks().len() == week_span(*dates),
        forall|x: int| 0 <= x < r.spec_weeks().len()
            ==> (#[trigger] r.spec_weeks()[x]).0 as int
                == dates.spec_first().dn() / 7 + x,
        forall|x: int, day: Seq<char>, p: Project|
            #![trigger wd_val(r.spec_weeks()[x].1.spec_entries(), day, p)]
            0 <= x < r.spec_weeks().len()
            ==> wd_val(r.spec_weeks()[x].1.spec_entries(), day, p)
                == week_minutes(entries@, dates.spec_first().dn() / 7 + x, day, p, mode),
        forall|x: int, day: Seq<char>, p: Project|
            #![trigger wd_present(r.spec_weeks()[x].1.spec_entries(), day, p)]
            0 <= x < r.spec_weeks().len()
            ==> (wd_present(r.spec_weeks()[x].1.spec_entries(), day, p)
                <==> week_has_key(
                    entries@, dates.spec_first().dn() / 7 + x, day, p, mode)),
        forall|x: int| 0 <= x < r.spec_weeks().len()
            ==> wsum((#[trigger] r.spec_weeks()[x]).1.spec_entries(), None, None, false)
                <= total_minutes(entries@),
        forall|day: Seq<char>, p: Project|
            #[trigger] wd_val(r.spec_totals().spec_entries(), day, p)
                == entries_minutes(entries@, day, p, mode),
        forall|day: Seq<char>, p: Project|
            #[trigger] wd_present(r.spec_totals().spec_entries(), day, p)
                <==> entries_has_key(entries@, day, p, mode),
        wsum(r.spec_totals().spec_entries(), None, None, false)
            == total_minutes(entries@),
{
    let ghost es = entries@;
    note_entries_valid(entries);
    proof {
        crate::model::lemma_max_day_number_bound();
        dates.spec_first().lemma_dn_bounds();
        dates.spec_last().lemma_dn_bounds();
    }
    let wf: u32 = dates.first().week_num();
    let wl: u32 = dates.last().week_num();
    let mut weeks: Vec<(u32, WeekData)> = Vec::new();
    if wf <= wl {
        let mut w: u32 = wf;
        while w <= wl
            invariant
                wf <= w <= wl + 1,
                wl < 20000,
                weeks@.len() == w - wf,
                forall|x: int| 0 <= x < weeks@.len()
                    ==> (#[trigger] weeks@[x]).0 as int == wf + x,
                forall|x: int| 0 <= x < weeks@.len()
                    ==> (#[trigger] weeks@[x]).1.spec_entries()
                        == Seq::<(Key, u32)>::empty(),
            decreases wl + 1 - w,
        {
            weeks.push((w, WeekData::new()));
            w = w + 1;
        }
    } else {
        weeks.push((wf, WeekData::new()));
    }
    let ghost nweeks = weeks@.len() as int;
    proof {
        assert(nweeks == week_span(*dates));
        assert forall|x: int, day: Seq<char>, p: Project|
            #![trigger wd_val(weeks@[x].1.spec_entries(), day, p)]
            0 <= x < nweeks
            implies wd_val(weeks@[x].1.spec_entries(), day, p)
                == week_minutes(es.take(0), wf as int + x, day, p, mode) by {
        }
        assert(es.take(0) =~= Seq::<DayEntry>::empty());
    }
    let mut totals = WeekData::new();
    let mut i: usize = 0;
    while i < entries.len()
        invariant
            es == entries@,
            forall|j: int| 0 <= j < es.len()
                ==> entry_ranges_valid((#[trigger] es[j]).spec_projects()),
            total_minutes(es) <= 0x7fffffff,
            forall|j: int| 0 <= j < es.len() ==> dates.spec_first().dn()
                <= (#[trigger] es[j]).spec_date().dn() <= dates.spec_last().dn(),
            wf as int == dates.spec_first().dn() / 7,
            wl as int == dates.spec_last().dn() / 7,
            i <= es.len(),
            weeks@.len() == nweeks,
            nweeks == week_span(*dates),
            forall|x: int| 0 <= x < nweeks
                ==> (#[trigger] weeks@[x]).0 as int == wf + x,
            forall|x: int, day: Seq<char>, p: Project|
                #![trigger wd_val(weeks@[x].1.spec_entries(), day, p)]
                0 <= x < nweeks
                ==> wd_val(weeks@[x].1.spec_entries(), day, p)
                    == week_minutes(es.take(i as int), wf as int + x, day, p, mode),
            forall|x: int, day: Seq<char>, p: Project|
                #![trigger wd_present(weeks@[x].1.spec_entries(), day, p)]
                0 <= x < nweeks
                ==> (wd_present(weeks@[x].1.spec_entries(), day, p)
                    <==> week_has_key(es.take(i as int), wf as int + x, day, p, mode)),
            forall|x: int| 0 <= x < nweeks
                ==> wsum((#[trigger] weeks@[x]).1.spec_entries(), None, None, false)
                    <= total_minutes(es.take(i as int)),
            forall|day: Seq<char>, p: Project|
                #[trigger] wd_val(totals.spec_entries(), day, p)
                    == entries_minutes(es.take(i as int), day, p, mode),
            forall|day: Seq<char>, p: Project|
                #[trigger] wd_present(totals.spec_entries(), day, p)
                    <==> entries_has_key(es.take(i as int), day, p, mode),
            wsum(totals.spec_entries(), None, None, false)
                == total_minutes(es.take(i as int)),
        decreases es.len() - i,
    {
        let e = &entries[i];
        let adj = match mode {
            ReportMode::Detail => e.duplicate(),
            ReportMode::Summary => e.without_subcodes(),
        };
        proof {
            lemma_adjusted_allocs(adj.spec_projects(), e.spec_projects(), mode);
            lemma_agg_step(es, i as int);
            lemma_entry_total_nonneg(es, i as int);
            lemma_entry_total_nonneg(es, i as int + 1);
        }
        let w: u32 = e.date().week_num();
        let x: usize = (w - wf) as usize;
        proof {
            assert(dates.spec_first().dn() <= es[i as int].spec_date().dn());
            assert(es[i as int].spec_date().dn() <= dates.spec_last().dn());
            assert(wf as int <= w as int);
            assert(w as int <= wl as int);
            assert((x as int) < nweeks);
        }
        let ghost weeks0 = weeks@;
        let mut slot = weeks.remove(x);
        slot.1.add_day_entry(&adj);
        totals.add_day_entry(&adj);
        weeks.insert(x, slot);
        i = i + 1;
        proof {
            assert(weeks@ =~= weeks0.update(x as int, slot));
            let ii = i as int - 1;
            assert(adj.spec_date() == es[ii].spec_date());
            assert forall|x2: int, day: Seq<char>, p: Project|
                #![trigger wd_val(weeks@[x2].1.spec_entries(), day, p)]
                0 <= x2 < nweeks
                implies wd_val(weeks@[x2].1.spec_entries(), day, p)
                    == week_minutes(es.take(i as int), wf as int + x2, day, p, mode) by {
                if x2 == x as int {
                    assert(day_key_minutes(adj, day, p)
                        == adj_day_key_minutes(es[ii], day, p, mode));
                } else {
                    assert(weeks@[x2] == weeks0[x2]);
                    assert(wf as int + x2 != es[ii].spec_date().dn() / 7);
                }
            }
            assert forall|x2: int, day: Seq<char>, p: Project|
                #![trigger wd_present(weeks@[x2].1.spec_entries(), day, p)]
                0 <= x2 < nweeks
                implies (wd_present(weeks@[x2].1.spec_entries(), day, p)
                    <==> week_has_key(es.take(i as int), wf as int + x2, day, p, mode)) by {
                if x2 == x as int {
                    assert(day_has_key(adj, day, p)
                        <==> adj_day_has_key(es[ii], day, p, mode));
                } else {
                    assert(weeks@[x2] == weeks0[x2]);
                    assert(wf as int + x2 != es[ii].spec_date().dn() / 7);
                }
            }
            assert forall|x2: int| 0 <= x2 < nweeks
                implies wsum((#[trigger] weeks@[x2]).1.spec_entries(), None, None, false)
                    <= total_minutes(es.take(i as int)) by {
                lemma_at_nonneg(es[ii].spec_projects());
                if x2 != x as int {
                    assert(weeks@[x2] == weeks0[x2]);
                }
            }
            assert forall|day: Seq<char>, p: Project|
                #[trigger] wd_val(totals.spec_entries(), day, p)
                    == entries_minutes(es.take(i as int), day, p, mode) by {
                assert(day_key_minutes(adj, day, p)
                    == adj_day_key_minutes(es[ii], day, p, mode));
            }
            assert forall|day: Seq<char>, p: Project|
                #[trigger] wd_present(totals.spec_entries(), day, p)
                    <==> entries_has_key(es.take(i as int), day, p, mode) by {
                assert(day_has_key(adj, day, p)
                    <==> adj_day_has_key(es[ii], day, p, mode));
            }
        }
    }
    proof {
        assert(es.take(es.len() as int) =~= es);
    }
    let mut weekdays: usize = 0;
    if entries.len() > 0 {
        let last_dn = entries[entries.len() - 1].date().day_num();
        let mut k: usize = 0;
        while k < entries.len()
            invariant
                es == entries@,
                es.len() > 0,
                k <= es.len(),
                last_dn as int == es.last().spec_date().dn(),
                weekdays <= k,
                weekdays as int == count_weekdays(es.take(k as int), last_dn as int),
            decreases es.len() - k,
        {
            let d = entries[k].date();
            proof {
                assert(es.take(k as int + 1).drop_last() =~= es.take(k as int));
                assert(es.take(k as int + 1).last() == es[k as int]);
            }
            if d.day_num() <= last_dn && d.is_weekday() {
                weekdays = weekdays + 1;
            }
            k = k + 1;
        }
        proof {
            assert(es.take(es.len() as int) =~= es);
        }
    }
    ReportData { weeks, projects, dates: *dates, totals, weekdays }
}

/// How many week buckets the range needs: its weeks when it runs
/// forward, one for a backwards range.
pub open spec fn week_span(dates: DateRange) -> int {
    let wf = dates.spec_first().dn() / 7;
    let wl = dates.spec_last().dn() / 7;
    if wf <= wl { wl - wf + 1 } else { 1int }
}

// --- assembling the whole report ---

/// The bucket stored for week number `w`, if any.
pub open spec fn find_week(ws: Seq<(u32, WeekData)>, w: int) -> Option<WeekData>
    decreases ws.len(),
{
    if ws.len() == 0 {
        None
    } else if ws.first().0 as int == w {
        Some(ws.first().1)
    } else {
        find_week(ws.drop_first(), w)
    }
}

pub open spec fn week_entries_of(ws: Seq<(u32, WeekData)>, w: int) -> Seq<(Key, u32)> {
    match find_week(ws, w) {
        Some(wd) => wd.spec_entries(),
        None => Seq::empty(),
    }
}

/// One week block: header and date rows, a row per project, and the
/// `TOTALS` and `REPORT` rows, each behind its padded label.
pub open spec fn block_spec(
    ws: Seq<(u32, WeekData)>, ps: Seq<Project>, mdn: int,
) -> Seq<Seq<char>> {
    let labels = project_labels_spec(ps);
    let es = week_entries_of(ws, mdn / 7);
    seq![
        labels[0] + "     MON     TUE     WED     THU     FRI     SAT     SUN"@,
        labels[1] + dates_line_spec(mdn),
    ] + Seq::new(ps.len(), |i: int| labels[i + 2] + times_line_spec(es, ps[i]))
        + seq![
            labels[ps.len() as int + 2] + totals_line_spec(es),
            labels[ps.len() as int + 3] + billables_line_spec(es),
        ]
}

/// The week blocks from the Monday `mdn` through `last_dn`, one blank
/// line between blocks; at least the first block is present.
pub open spec fn report_blocks_spec(
    ws: Seq<(u32, WeekData)>, ps: Seq<Project>, mdn: int, last_dn: int,
) -> Seq<Seq<char>>
    decreases last_dn - mdn,
{
    block_spec(ws, ps, mdn) + if mdn + 7 <= last_dn {
        seq![Seq::<char>::empty()] + report_blocks_spec(ws, ps, mdn + 7, last_dn)
    } else {
        Seq::empty()
    }
}

/// Every Monday the walk visits has a week bucket.
pub open spec fn mondays_found(ws: Seq<(u32, WeekData)>, mdn: int, last_dn: int) -> bool
    decreases last_dn - mdn,
{
    find_week(ws, mdn / 7) is Some
        && (mdn + 7 <= last_dn ==> mondays_found(ws, mdn + 7, last_dn))
}

/// All lines of a rendered report: the week blocks of the full-week
/// expansion of the range, then the grand-totals section.
pub open spec fn report_lines_spec(data: ReportData) -> Seq<Seq<char>> {
    let fdn = data.spec_dates().spec_first().dn();
    let ldn = data.spec_dates().spec_last().dn();
    report_blocks_spec(
        data.spec_weeks(), data.spec_projects(), fdn - fdn % 7, ldn - ldn % 7 + 6)
        + grand_lines_spec(
            data.spec_projects(), data.spec_totals().spec_entries(),
            480 * data.spec_weekdays())
}

pub open spec fn lines_match(ls: Seq<String>, sp: Seq<Seq<char>>) -> bool {
    ls.len() == sp.len() && forall|i: int| 0 <= i < sp.len()
        ==> (#[trigger] ls[i])@ == sp[i]
}

/// Renders the whole report from its data.
#[verifier::rlimit(100)]
fn render_report_data(data: &ReportData) -> (r: Result<Vec<String>, Error>)
    requires
        data.spec_dates().spec_first().valid(),
        data.spec_dates().spec_last().valid(),
        forall|x: int| 0 <= x < data.spec_weeks().len()
            ==> wsum((#[trigger] data.spec_weeks()[x]).1.spec_entries(),
                None, None, false) <= 0x7fffffff,
        wsum(data.spec_totals().spec_entries(), None, None, false) <= 0x7fffffff,
        480 * data.spec_weekdays() <= 0x7fffffff,
        0 <= data.spec_weekdays(),
        max_label_len(data.spec_projects()) <= 1000000,
        max_cc_len(data.spec_projects()) <= 1000000,
    ensures
        ({
            let fdn = data.spec_dates().spec_first().dn();
            let ldn = data.spec_dates().spec_last().dn();
            let fw = fdn - fdn % 7;
            let lw = ldn - ldn % 7 + 6;
            &&& (r is Ok <==> (ldn % 7 == 6 || lw + 1 <= max_day_number())
                && fw + 6 <= max_day_number()
                && mondays_found(data.spec_weeks(), fw, lw))
            &&& (r matches Ok(lines) ==> lines_match(lines@, report_lines_spec(*data)))
            &&& (r matches Err(e) ==> (e is InvalidDate || e is MissingWeekData))
            &&& (r matches Err(e) && e is MissingWeekData
                ==> !mondays_found(data.spec_weeks(), fw, lw))
        }),
{
    let ghost ws = data.spec_weeks();
    let ghost ps = data.spec_projects();
    let ghost fdn = data.spec_dates().spec_first().dn();
    let ghost ldn = data.spec_dates().spec_last().dn();
    let ghost fw = fdn - fdn % 7;
    let ghost lw = ldn - ldn % 7 + 6;
    let left_labels = create_project_labels(&data.projects);
    let nlabels: usize = left_labels.len();
    let np = data.projects.len();
    let full_range = match data.dates.as_full_weeks() {
        Ok(fr) => fr,
        Err(e) => {
            return Err(e);
        }
    };
    let first = full_range.first();
    let last = full_range.last();
    let last_dn: u32 = last.day_num();
    let mut answer: Vec<String> = Vec::new();
    let mut monday = first;
    let ghost mut done_spec: Seq<Seq<char>> = Seq::empty();
    proof {
        crate::model::lemma_max_day_number_bound();
        crate::model::lemma_date_with_dn(first);
        assert(done_spec + report_blocks_spec(ws, ps, monday.dn(), lw)
            =~= report_blocks_spec(ws, ps, fw, lw));
    }
    loop
        invariant_except_break
            monday.valid(),
            monday.dn() % 7 == 0,
            monday == date_with_dn(monday.dn()),
            fw <= monday.dn(),
            monday.dn() <= lw || monday.dn() == fw,
            report_blocks_spec(ws, ps, fw, lw)
                == done_spec + report_blocks_spec(ws, ps, monday.dn(), lw),
            lines_match(answer@, done_spec),
            mondays_found(ws, monday.dn(), lw) ==> mondays_found(ws, fw, lw),
            mondays_found(ws, fw, lw) ==> mondays_found(ws, monday.dn(), lw),
            monday.dn() == fw || fw + 6 <= max_day_number(),
        invariant
            ws == data.spec_weeks(),
            ps == data.spec_projects(),
            np == ps.len(),
            fdn == data.spec_dates().spec_first().dn(),
            ldn == data.spec_dates().spec_last().dn(),
            fw == fdn - fdn % 7,
            lw == ldn - ldn % 7 + 6,
            lw as int == last_dn,
            last.valid(),
            last.dn() == lw,
            nlabels == ps.len() + 4,
            left_labels@.len() == ps.len() + 4,
            forall|i: int| 0 <= i < left_labels@.len()
                ==> (#[trigger] left_labels@[i])@ == project_labels_spec(ps)[i],
            forall|x: int| 0 <= x < ws.len()
                ==> wsum((#[trigger] ws[x]).1.spec_entries(),
                    None, None, false) <= 0x7fffffff,
            lw + 1 <= max_day_number() || ldn % 7 == 6,
            max_day_number() < 130000,
        ensures
            lines_match(answer@, report_blocks_spec(ws, ps, fw, lw)),
            mondays_found(ws, fw, lw),
            fw + 6 <= max_day_number(),
        decreases lw - monday.dn() + 7,
    {
        let ghost mdn = monday.dn();
        let w: u32 = monday.week_num();
        let wdi = match find_week_exec(&data.weeks, w) {
            Some(i) => i,
            None => {
                proof {
                    assert(!mondays_found(ws, mdn, lw));
                }
                return Err(Error::MissingWeekData);
            }
        };
        let week_data = &data.weeks[wdi].1;
        let ghost es = week_entries_of(ws, mdn / 7);
        proof {
            assert(week_data.spec_entries() == es);
        }
        let ghost block = block_spec(ws, ps, mdn);
        let nb = answer.len();
        let ghost labels = project_labels_spec(ps);
        proof {
            assert(nb == done_spec.len());
        }
        answer.push(join_line(&left_labels[0], create_day_labels().as_str()));
        let dl = match render_dates_line(monday) {
            Ok(l) => l,
            Err(e) => {
                proof {
                    assert(mdn + 6 > max_day_number());
                    last.lemma_dn_bounds();
                    if monday.dn() <= lw {
                        assert((lw - monday.dn()) % 7 == 6);
                        assert(false);
                    }
                }
                return Err(e);
            }
        };
        answer.push(join_line(&left_labels[1], dl.as_str()));
        let mut pj: usize = 0;
        while pj < np
            invariant
                ws == data.spec_weeks(),
                ps == data.spec_projects(),
                np == ps.len(),
                es == week_entries_of(ws, mdn / 7),
                week_data.spec_entries() == es,
                wsum(es, None, None, false) <= 0x7fffffff,
                pj <= np,
                labels == project_labels_spec(ps),
                nlabels == ps.len() + 4,
                left_labels@.len() == ps.len() + 4,
                forall|i: int| 0 <= i < left_labels@.len()
                    ==> (#[trigger] left_labels@[i])@ == labels[i],
                nb == done_spec.len(),
                forall|i: int| 0 <= i < nb
                    ==> (#[trigger] answer@[i])@ == done_spec[i],
                answer@.len() == nb + 2 + pj,
                answer@[nb as int]@ == block[0],
                answer@[nb as int + 1]@ == block[1],
                block == block_spec(ws, ps, mdn),
                forall|i: int| 0 <= i < pj ==> (#[trigger] answer@[nb + 2 + i])@
                    == labels[i + 2] + times_line_spec(es, ps[i]),
            decreases np - pj,
        {
            let tl = render_times_line(&data.projects[pj], week_data);
            answer.push(join_line(&left_labels[2 + pj], tl.as_str()));
            pj = pj + 1;
        }
        let ttl = render_totals_line(week_data);
        answer.push(join_line(&left_labels[2 + np], ttl.as_str()));
        let tbl = render_billables_line(week_data);
        answer.push(join_line(&left_labels[3 + np], tbl.as_str()));
        proof {
            let rows = Seq::new(ps.len(),
                |x: int| labels[x + 2] + times_line_spec(es, ps[x]));
            assert(block =~= seq![
                labels[0]
                    + "     MON     TUE     WED     THU     FRI     SAT     SUN"@,
                labels[1] + dates_line_spec(mdn),
            ] + rows + seq![
                labels[np as int + 2] + totals_line_spec(es),
                labels[np as int + 3] + billables_line_spec(es),
            ]);
            assert forall|i: int| 0 <= i < answer@.len()
                implies (#[trigger] answer@[i])@ == (done_spec + block)[i] by {
                if i < nb {
                    assert(answer@[i]@ == done_spec[i]);
                } else if i == nb {
                } else if i == nb + 1 {
                } else if i < nb + 2 + np {
                    assert(answer@[nb + 2 + (i - nb - 2)]@
                        == labels[(i - nb - 2) + 2]
                            + times_line_spec(es, ps[i - nb - 2]));
                    assert(block[i - nb] == rows[i - nb - 2]);
                } else if i == nb + 2 + np {
                    assert(block[i - nb] == labels[np as int + 2]
                        + totals_line_spec(es));
                } else {
                    assert(block[i - nb] == labels[np as int + 3]
                        + billables_line_spec(es));
                }
            }
            assert(answer@.len() == done_spec.len() + block.len());
        }
        if monday.day_num() + 7 > last_dn {
            proof {
                assert(report_blocks_spec(ws, ps, mdn, lw) =~= block);
                done_spec = done_spec + block;
                assert(mondays_found(ws, mdn, lw));
            }
            break;
        }
        let next_m = match monday.next_monday() {
            Ok(m) => m,
            Err(e) => {
                proof {
                    monday.lemma_dn_bounds();
                    last.lemma_dn_bounds();
                    assert(false);
                }
                return Err(e);
            }
        };
        answer.push(String::new());
        proof {
            crate::model::lemma_date_with_dn(next_m);
            assert(report_blocks_spec(ws, ps, mdn, lw)
                =~= block + seq![Seq::<char>::empty()]
                    + report_blocks_spec(ws, ps, mdn + 7, lw));
            done_spec = done_spec + block + seq![Seq::<char>::empty()];
            assert(report_blocks_spec(ws, ps, fw, lw)
                =~= done_spec + report_blocks_spec(ws, ps, next_m.dn(), lw));
            assert(mondays_found(ws, mdn, lw)
                <==> (find_week(ws, mdn / 7) is Some
                    && mondays_found(ws, mdn + 7, lw)));
        }
        monday = next_m;
    }
    let expected: u32 = 480 * (data.weekdays as u32);
    let grand = render_grand_totals(&data.projects, &data.totals, expected);
    let ghost before_grand = answer@;
    let ghost blocks = report_blocks_spec(ws, ps, fw, lw);
    let mut g: usize = 0;
    while g < grand.len()
        invariant
            g <= grand@.len(),
            answer@.len() == before_grand.len() + g,
            forall|i: int| 0 <= i < before_grand.len()
                ==> #[trigger] answer@[i] == before_grand[i],
            forall|i: int| 0 <= i < g
                ==> #[trigger] answer@[before_grand.len() + i] == grand@[i],
        decreases grand@.len() - g,
    {
        let line = grand[g].clone();
        answer.push(line);
        g = g + 1;
    }
    proof {
        assert forall|i: int| 0 <= i < report_lines_spec(*data).len()
            implies (#[trigger] answer@[i])@ == report_lines_spec(*data)[i] by {
            if i < blocks.len() {
                assert(answer@[i] == before_grand[i]);
                assert(before_grand[i]@ == blocks[i]);
            } else {
                assert(answer@[blocks.len() + (i - blocks.len())]
                    == grand@[i - blocks.len()]);
                assert(grand@[i - blocks.len()]@ == grand_lines_spec(
                    ps, data.spec_totals().spec_entries(),
                    480 * data.spec_weekdays())[i - blocks.len()]);
            }
        }
        assert(answer@.len() == report_lines_spec(*data).len());
    }
    Ok(answer)
}

/// Joins a label and a line body.
fn join_line(label: &String, body: &str) -> (r: String)
    ensures
        r@ == label@ + body@,
{
    let mut out: Vec<char> = Vec::new();
    text::push_str_chars(&mut out, label.as_str());
    text::push_str_chars(&mut out, body);
    text::from_chars(&out)
}

/// Finds the index of the bucket for week `w`.
fn find_week_exec(ws: &Vec<(u32, WeekData)>, w: u32) -> (r: Option<usize>)
    ensures
        r matches Some(i) ==> i < ws@.len() && ws@[i as int].0 == w
            && find_week(ws@, w as int) == Some(ws@[i as int].1),
        r is None ==> find_week(ws@, w as int) is None,
{
    let mut i: usize = 0;
    proof {
        assert(ws@.skip(0) =~= ws@);
    }
    while i < ws.len()
        invariant
            i <= ws@.len(),
            find_week(ws@, w as int) == find_week(ws@.skip(i as int), w as int),
            forall|j: int| 0 <= j < i ==> (#[trigger] ws@[j]).0 != w,
        decreases ws@.len() - i,
    {
        proof {
            let sk = ws@.skip(i as int);
            assert(sk.first() == ws@[i as int]);
            assert(sk.drop_first() =~= ws@.skip(i as int + 1));
        }
        if ws[i].0 == w {
            return Some(i);
        }
        i = i + 1;
    }
    proof {
        assert(ws@.skip(ws@.len() as int) =~= Seq::<(u32, WeekData)>::empty());
    }
    None
}

// --- the public report entry point ---

/// Entry lists that are the same entry by entry book the same minutes.
proof fn lemma_same_entry_total(a: DayEntry, b: DayEntry)
    requires
        DayEntry::same(a, b),
    ensures
        entry_total(a) == entry_total(b),
{
    lemma_same_allocs_total(a.spec_projects(), b.spec_projects());
}

proof fn lemma_same_allocs_total(a: Seq<ProjectTimes>, b: Seq<ProjectTimes>)
    requires
        project_times_seq_same(a, b),
    ensures
        allocs_total(a) == allocs_total(b),
    decreases a.len(),
{
    if a.len() > 0 {
        assert(ProjectTimes::same(a.last(), b.last()));
        assert(project_times_seq_same(a.drop_last(), b.drop_last())) by {
            assert(forall|i: int| 0 <= i < a.len() - 1
                ==> #[trigger] a.drop_last()[i] == a[i] && b.drop_last()[i] == b[i]);
        }
        lemma_same_allocs_total(a.drop_last(), b.drop_last());
    }
}

proof fn lemma_same_seq_total(a: Seq<DayEntry>, b: Seq<DayEntry>)
    requires
        days_same_seq(a, b),
    ensures
        total_minutes(a) == total_minutes(b),
    decreases a.len(),
{
    if a.len() > 0 {
        assert(DayEntry::same(a.last(), b.last()));
        assert(days_same_seq(a.drop_last(), b.drop_last())) by {
            assert(forall|i: int| 0 <= i < a.len() - 1
                ==> #[trigger] a.drop_last()[i] == a[i] && b.drop_last()[i] == b[i]);
        }
        lemma_same_seq_total(a.drop_last(), b.drop_last());
        lemma_same_entry_total(a.last(), b.last());
    }
}

proof fn lemma_insert_day_total(s: Seq<DayEntry>, e: DayEntry)
    ensures
        total_minutes(insert_day_sorted(s, e)) == total_minutes(s) + entry_total(e),
        insert_day_sorted(s, e).len() == s.len() + 1,
    decreases s.len(),
{
    let r = insert_day_sorted(s, e);
    if s.len() == 0 {
        assert(r =~= seq![e]);
        assert(r.drop_last() =~= Seq::<DayEntry>::empty());
        assert(total_minutes(r)
            == total_minutes(r.drop_last()) + entry_total(r.last()));
        assert(total_minutes(r.drop_last()) == 0);
        assert(total_minutes(s) == 0);
    } else if s.first().spec_date().dn() <= e.spec_date().dn() {
        lemma_insert_day_total(s.drop_first(), e);
        let inner = insert_day_sorted(s.drop_first(), e);
        assert(r =~= seq![s.first()] + inner);
        lemma_cons_total(s.first(), inner);
        lemma_cons_total(s.first(), s.drop_first());
        assert(seq![s.first()] + s.drop_first() =~= s);
    } else {
        assert(r =~= seq![e] + s);
        lemma_cons_total(e, s);
    }
}

proof fn lemma_cons_total(e: DayEntry, s: Seq<DayEntry>)
    ensures
        total_minutes(seq![e] + s) == entry_total(e) + total_minutes(s),
    decreases s.len(),
{
    let r = seq![e] + s;
    if s.len() == 0 {
        assert(r =~= seq![e]);
        assert(r.drop_last() =~= Seq::<DayEntry>::empty());
        assert(total_minutes(r)
            == total_minutes(r.drop_last()) + entry_total(r.last()));
        assert(total_minutes(r.drop_last()) == 0);
        assert(total_minutes(s) == 0);
    } else {
        assert(r.drop_last() =~= seq![e] + s.drop_last());
        assert(r.last() == s.last());
        lemma_cons_total(e, s.drop_last());
    }
}

proof fn lemma_sort_days_total(s: Seq<DayEntry>)
    ensures
        total_minutes(sort_days(s)) == total_minutes(s),
        sort_days(s).len() == s.len(),
    decreases s.len(),
{
    if s.len() > 0 {
        lemma_sort_days_total(s.drop_last());
        lemma_insert_day_total(sort_days(s.drop_last()), s.last());
    }
}

proof fn lemma_filter_days_total(es: Seq<DayEntry>, lo: int, hi: int)
    requires
        forall|j: int| 0 <= j < es.len()
            ==> entry_ranges_valid((#[trigger] es[j]).spec_projects()),
    ensures
        0 <= total_minutes(filter_days(es, lo, hi)) <= total_minutes(es),
        filter_days(es, lo, hi).len() <= es.len(),
        forall|j: int| 0 <= j < filter_days(es, lo, hi).len()
            ==> lo <= (#[trigger] filter_days(es, lo, hi)[j]).spec_date().dn() <= hi,
        forall|j: int| 0 <= j < filter_days(es, lo, hi).len()
            ==> entry_ranges_valid(
                (#[trigger] filter_days(es, lo, hi)[j]).spec_projects()),
    decreases es.len(),
{
    let f = filter_days(es, lo, hi);
    if es.len() == 0 {
        assert(f =~= Seq::<DayEntry>::empty());
    } else {
        let d = es.drop_first();
        assert(forall|j: int| 0 <= j < d.len()
            ==> #[trigger] d[j] == es[j + 1]);
        assert(forall|j: int| 0 <= j < d.len()
            ==> entry_ranges_valid((#[trigger] d[j]).spec_projects()));
        lemma_filter_days_total(d, lo, hi);
        lemma_at_nonneg(es.first().spec_projects());
        if lo <= es.first().spec_date().dn() <= hi {
            assert(f =~= seq![es.first()] + filter_days(d, lo, hi));
            lemma_cons_total(es.first(), filter_days(d, lo, hi));
            assert(total_minutes(es)
                == total_minutes(d) + entry_total(es.first())) by {
                lemma_cons_total(es.first(), d);
                assert(seq![es.first()] + d =~= es);
            }
        } else {
            assert(f =~= filter_days(d, lo, hi));
            assert(total_minutes(es)
                == total_minutes(d) + entry_total(es.first())) by {
                lemma_cons_total(es.first(), d);
                assert(seq![es.first()] + d =~= es);
            }
        }
    }
}

proof fn lemma_insert_day_range(s: Seq<DayEntry>, e: DayEntry, lo: int, hi: int)
    requires
        forall|j: int| 0 <= j < s.len()
            ==> lo <= (#[trigger] s[j]).spec_date().dn() <= hi,
        lo <= e.spec_date().dn() <= hi,
    ensures
        forall|j: int| 0 <= j < insert_day_sorted(s, e).len()
            ==> lo <= (#[trigger] insert_day_sorted(s, e)[j]).spec_date().dn() <= hi,
    decreases s.len(),
{
    let r = insert_day_sorted(s, e);
    if s.len() == 0 {
        assert(r =~= seq![e]);
    } else if s.first().spec_date().dn() <= e.spec_date().dn() {
        let d = s.drop_first();
        assert(forall|j: int| 0 <= j < d.len() ==> #[trigger] d[j] == s[j + 1]);
        lemma_insert_day_range(d, e, lo, hi);
        assert(r =~= seq![s.first()] + insert_day_sorted(d, e));
    } else {
        assert(r =~= seq![e] + s);
    }
}

proof fn lemma_sort_days_range(s: Seq<DayEntry>, lo: int, hi: int)
    requires
        forall|j: int| 0 <= j < s.len()
            ==> lo <= (#[trigger] s[j]).spec_date().dn() <= hi,
    ensures
        forall|j: int| 0 <= j < sort_days(s).len()
            ==> lo <= (#[trigger] sort_days(s)[j]).spec_date().dn() <= hi,
    decreases s.len(),
{
    if s.len() > 0 {
        let d = s.drop_last();
        assert(forall|j: int| 0 <= j < d.len() ==> #[trigger] d[j] == s[j]);
        lemma_sort_days_range(d, lo, hi);
        lemma_insert_day_range(sort_days(d), s.last(), lo, hi);
    }
}

proof fn lemma_count_weekdays_le(es: Seq<DayEntry>, last_dn: int)
    ensures
        0 <= count_weekdays(es, last_dn) <= es.len(),
    decreases es.len(),
{
    if es.len() > 0 {
        lemma_count_weekdays_le(es.drop_last(), last_dn);
    }
}

proof fn lemma_max_label_from_entries(
    ps: Seq<Project>, es: Seq<DayEntry>, bound: int, mode: ReportMode,
)
    requires
        forall|p: Project| entries_have_project(es, p)
            ==> #[trigger] project_label_spec(p).len() <= bound,
        forall|p: Project| #![trigger has_project(ps, p)]
            has_project(ps, p) ==> entries_have_project_mode(es, p, mode),
        bound >= 1,
    ensures
        max_label_len(ps) <= bound,
        max_cc_len(ps) <= bound,
    decreases ps.len(),
{
    if ps.len() > 0 {
        let d = ps.drop_last();
        assert forall|p: Project| #![trigger has_project(d, p)]
            has_project(d, p) implies entries_have_project_mode(es, p, mode) by {
            if has_project(d, p) {
                let i = choose|i: int| 0 <= i < d.len()
                    && Project::same(#[trigger] d[i], p);
                assert(Project::same(ps[i], p));
                assert(has_project(ps, p));
            }
        }
        lemma_max_label_from_entries(d, es, bound, mode);
        let q = ps.last();
        assert(Project::same(ps[ps.len() - 1], q));
        assert(has_project(ps, q));
        let (i, j) = choose|i: int, j: int| #![trigger es[i].spec_projects()[j]]
            0 <= i < es.len() && 0 <= j < es[i].spec_projects().len()
                && proj_match_mode(es[i].spec_projects()[j].spec_project(), q, mode);
        let w = es[i].spec_projects()[j].spec_project();
        assert(Project::same(es[i].spec_projects()[j].spec_project(), w));
        assert(entries_have_project(es, w));
        assert(project_label_spec(w).len() <= bound);
        assert(project_label_spec(q).len() <= project_label_spec(w).len());
        assert(cc_len(q) < project_label_spec(q).len());
    }
}

/// The distinct projects of the entries as the mode reads them: the
/// entries' own projects in `Detail`, their subcode-collapsed projects
/// in `Summary`, so collapsed projects share one report row.
fn mode_projects(day_entries: &Vec<DayEntry>, mode: ReportMode) -> (r: Vec<Project>)
    ensures
        projects_sorted(r@),
        forall|p: Project| #![trigger has_project(r@, p)]
            has_project(r@, p) <==> entries_have_project_mode(day_entries@, p, mode),
{
    let ghost es = day_entries@;
    match mode {
        ReportMode::Detail => {
            let r = unique_projects(day_entries);
            proof {
                assert forall|p: Project| #![trigger has_project(r@, p)]
                    has_project(r@, p)
                        <==> entries_have_project_mode(es, p, mode) by {
                    if entries_have_project(es, p) {
                        let (i, j) = choose|i: int, j: int|
                            #![trigger es[i].spec_projects()[j]]
                            0 <= i < es.len() && 0 <= j < es[i].spec_projects().len()
                                && Project::same(
                                    es[i].spec_projects()[j].spec_project(), p);
                        assert(proj_match_mode(
                            es[i].spec_projects()[j].spec_project(), p, mode));
                    }
                    if entries_have_project_mode(es, p, mode) {
                        let (i, j) = choose|i: int, j: int|
                            #![trigger es[i].spec_projects()[j]]
                            0 <= i < es.len() && 0 <= j < es[i].spec_projects().len()
                                && proj_match_mode(
                                    es[i].spec_projects()[j].spec_project(), p, mode);
                        assert(Project::same(
                            es[i].spec_projects()[j].spec_project(), p));
                    }
                }
            }
            r
        }
        ReportMode::Summary => {
            let mut collapsed: Vec<DayEntry> = Vec::new();
            let mut ci: usize = 0;
            while ci < day_entries.len()
                invariant
                    es == day_entries@,
                    ci <= es.len(),
                    collapsed@.len() == ci,
                    forall|j: int| 0 <= j < ci
                        ==> crate::model::collapses(#[trigger] collapsed@[j], es[j]),
                decreases es.len() - ci,
            {
                collapsed.push(day_entries[ci].without_subcodes());
                ci = ci + 1;
            }
            let r = unique_projects(&collapsed);
            proof {
                let cs = collapsed@;
                assert forall|p: Project| #![trigger has_project(r@, p)]
                    has_project(r@, p)
                        <==> entries_have_project_mode(es, p, mode) by {
                    if entries_have_project(cs, p) {
                        let (i, j) = choose|i: int, j: int|
                            #![trigger cs[i].spec_projects()[j]]
                            0 <= i < cs.len() && 0 <= j < cs[i].spec_projects().len()
                                && Project::same(
                                    cs[i].spec_projects()[j].spec_project(), p);
                        assert(crate::model::collapses(cs[i], es[i]));
                        assert(p.spec_subcode().len() == 0
                            ==> p.spec_subcode() =~= Seq::<char>::empty());
                        assert(proj_match_mode(
                            es[i].spec_projects()[j].spec_project(), p, mode));
                    }
                    if entries_have_project_mode(es, p, mode) {
                        let (i, j) = choose|i: int, j: int|
                            #![trigger es[i].spec_projects()[j]]
                            0 <= i < es.len() && 0 <= j < es[i].spec_projects().len()
                                && proj_match_mode(
                                    es[i].spec_projects()[j].spec_project(), p, mode);
                        assert(crate::model::collapses(cs[i], es[i]));
                        assert(p.spec_subcode().len() == 0
                            ==> p.spec_subcode() =~= Seq::<char>::empty());
                        assert(Project::same(
                            cs[i].spec_projects()[j].spec_project(), p));
                        assert(entries_have_project(cs, p));
                    }
                }
            }
            r
        }
    }
}

/// Every Monday of the full-week walk finds its bucket among
/// consecutive week keys covering the range.
proof fn lemma_find_week_at(ws: Seq<(u32, WeekData)>, wf: int, x: int)
    requires
        forall|y: int| 0 <= y < ws.len() ==> (#[trigger] ws[y]).0 as int == wf + y,
        0 <= x < ws.len(),
    ensures
        find_week(ws, wf + x) == Some(ws[x].1),
    decreases x,
{
    if ws.len() > 0 {
        if x == 0 {
        } else {
            let d = ws.drop_first();
            assert(forall|y: int| 0 <= y < d.len()
                ==> (#[trigger] d[y]).0 as int == (wf + 1) + y) by {
                assert(forall|y: int| 0 <= y < d.len()
                    ==> #[trigger] d[y] == ws[y + 1]);
            }
            lemma_find_week_at(d, wf + 1, x - 1);
            assert(d[x - 1] == ws[x]);
        }
    }
}

proof fn lemma_mondays_all_found(
    ws: Seq<(u32, WeekData)>, wf: int, nw: int, mdn: int, lw: int,
)
    requires
        ws.len() == nw,
        forall|y: int| 0 <= y < nw ==> (#[trigger] ws[y]).0 as int == wf + y,
        mdn % 7 == 0,
        wf <= mdn / 7,
        mdn / 7 - wf < nw,
        lw % 7 == 6 || lw < mdn,
        lw <= (wf + nw - 1) * 7 + 6,
    ensures
        mondays_found(ws, mdn, lw),
    decreases lw - mdn + 7,
{
    lemma_find_week_at(ws, wf, mdn / 7 - wf);
    if mdn + 7 <= lw {
        assert((mdn + 7) % 7 == 0);
        assert((mdn + 7) / 7 == mdn / 7 + 1);
        assert(mdn + 7 <= (wf + nw - 1) * 7 + 6);
        assert((mdn + 7) / 7 - wf < nw) by {
            if (mdn + 7) / 7 - wf >= nw {
                assert(mdn + 7 >= (wf + nw) * 7);
            }
        }
        lemma_mondays_all_found(ws, wf, nw, mdn + 7, lw);
    }
}

/// How a report's data realizes the range, the selected entries and
/// the mode: the aggregates of `compute_report_data`, stated of the
/// entry list the report selected.
pub open spec fn report_data_matches(
    data: ReportData, dates: DateRange, filtered: Seq<DayEntry>,
    all_entries: Seq<DayEntry>, mode: ReportMode,
) -> bool {
    &&& data.spec_dates() == dates
    &&& projects_sorted(data.spec_projects())
    &&& (forall|p: Project| #![trigger has_project(data.spec_projects(), p)]
        has_project(data.spec_projects(), p)
            <==> entries_have_project_mode(all_entries, p, mode))
    &&& data.spec_weekdays() == weekdays_spec(filtered)
    &&& data.spec_weeks().len() == week_span(dates)
    &&& (forall|x: int| 0 <= x < data.spec_weeks().len()
        ==> (#[trigger] data.spec_weeks()[x]).0 as int
            == dates.spec_first().dn() / 7 + x)
    &&& (forall|x: int, day: Seq<char>, p: Project|
        #![trigger wd_val(data.spec_weeks()[x].1.spec_entries(), day, p)]
        0 <= x < data.spec_weeks().len()
        ==> wd_val(data.spec_weeks()[x].1.spec_entries(), day, p)
            == week_minutes(filtered, dates.spec_first().dn() / 7 + x, day, p, mode))
    &&& (forall|x: int, day: Seq<char>, p: Project|
        #![trigger wd_present(data.spec_weeks()[x].1.spec_entries(), day, p)]
        0 <= x < data.spec_weeks().len()
        ==> (wd_present(data.spec_weeks()[x].1.spec_entries(), day, p)
            <==> week_has_key(
                filtered, dates.spec_first().dn() / 7 + x, day, p, mode)))
    &&& (forall|day: Seq<char>, p: Project|
        #[trigger] wd_val(data.spec_totals().spec_entries(), day, p)
            == entries_minutes(filtered, day, p, mode))
    &&& (forall|day: Seq<char>, p: Project|
        #[trigger] wd_present(data.spec_totals().spec_entries(), day, p)
            <==> entries_has_key(filtered, day, p, mode))
    &&& wsum(data.spec_totals().spec_entries(), None, None, false)
        == total_minutes(filtered)
}

/// Builds the report for the date range from the parsed entries:
/// selects and orders the entries of the range, gathers the weekly and
/// grand totals under the mode, and renders the fixed-width lines.
pub fn create_report(
    dates: DateRange, day_entries: &Vec<DayEntry>, mode: ReportMode,
) -> (r: Result<Vec<String>, Error>)
    requires
        total_minutes(day_entries@) <= 0x7fffffff,
        480 * day_entries@.len() <= 0x7fffffff,
        forall|p: Project| entries_have_project(day_entries@, p)
            ==> #[trigger] project_label_spec(p).len() <= 1000000,
    ensures
        ({
            let fdn = dates.spec_first().dn();
            let ldn = dates.spec_last().dn();
            let fw = fdn - fdn % 7;
            let lw = ldn - ldn % 7 + 6;
            &&& (r is Ok <==> (ldn % 7 == 6 || lw + 1 <= max_day_number())
                && fw + 6 <= max_day_number())
            &&& (r matches Ok(lines)
                ==> exists|data: ReportData, filtered: Seq<DayEntry>|
                    days_same_seq(filtered, sort_days(filter_days(
                        day_entries@, fdn, ldn)))
                    && #[trigger] report_data_matches(
                        data, dates, filtered, day_entries@, mode)
                    && lines_match(lines@, report_lines_spec(data)))
            &&& (r matches Err(e) ==> e is InvalidDate)
        }),
{
    let ghost es = day_entries@;
    let ghost fdn = dates.spec_first().dn();
    let ghost ldn = dates.spec_last().dn();
    note_entries_valid(day_entries);
    let fdate = dates.first();
    let ldate = dates.last();
    let fdn_e = fdate.day_num();
    let ldn_e = ldate.day_num();
    let filtered = day_entries_in_range(&dates, day_entries);
    let projects = mode_projects(day_entries, mode);
    let ghost fspec = sort_days(filter_days(es, fdn, ldn));
    proof {
        lemma_filter_days_total(es, fdn, ldn);
        lemma_sort_days_total(filter_days(es, fdn, ldn));
        lemma_same_seq_total(filtered@, fspec);
        lemma_sort_days_range(filter_days(es, fdn, ldn), fdn, ldn);
        assert(forall|j: int| 0 <= j < filtered@.len()
            ==> fdn <= (#[trigger] filtered@[j]).spec_date().dn() <= ldn) by {
            assert(forall|j: int| 0 <= j < filtered@.len()
                ==> DayEntry::same(#[trigger] filtered@[j], fspec[j]));
        }
        lemma_max_label_from_entries(projects@, es, 1000000, mode);
    }
    let data = compute_report_data(&dates, &filtered, projects, mode);
    proof {
        if filtered@.len() > 0 {
            lemma_count_weekdays_le(filtered@, filtered@.last().spec_date().dn());
        }
        crate::model::lemma_max_day_number_bound();
        let fw = fdn - fdn % 7;
        let lw = ldn - ldn % 7 + 6;
        let wf = fdn / 7;
        let nw = week_span(dates);
        assert(fw % 7 == 0);
        assert(fw / 7 == wf);
        assert(lw % 7 == 6);
        assert(lw <= (wf + nw - 1) * 7 + 6) by {
            if fdn <= ldn {
                assert(nw == ldn / 7 - wf + 1);
                assert(ldn - ldn % 7 == (ldn / 7) * 7);
            } else {
                assert(nw == 1);
                assert(ldn - ldn % 7 == (ldn / 7) * 7);
                assert(ldn / 7 <= wf);
            }
        }
        lemma_mondays_all_found(data.spec_weeks(), wf, nw, fw, lw);
    }
    match render_report_data(&data) {
        Ok(lines) => {
            proof {
                let ghost filt = filtered@;
                assert(report_data_matches(data, dates, filt, es, mode));
                assert(days_same_seq(filt, fspec));
                assert(lines_match(lines@, report_lines_spec(data)));
            }
            Ok(lines)
        }
        Err(e) => Err(e),
    }
}

} // verus!
