//! Support for appending a new date block to the ledger: checking that
//! the date is not already recorded, and building the text to insert.

use vstd::prelude::*;
use crate::error::Error;
use crate::model::{Date, DayEntry, Project, ProjectTimes, day_name_spec};
use crate::text;

verus! {

broadcast use vstd::string::group_string_axioms;

/// Checks that `date` is not already recorded: entries are scanned in
/// order and the scan stops at the first entry on or after `date`.
pub fn validate_date(all_day_entries: &Vec<DayEntry>, date: Date) -> (r: Result<(), Error>)
    ensures
        r is Err <==> exists|i: int| #![trigger all_day_entries@[i]]
            0 <= i < all_day_entries@.len()
            && all_day_entries@[i].spec_date().dn() == date.dn()
            && forall|j: int| 0 <= j < i
                ==> (#[trigger] all_day_entries@[j]).spec_date().dn() < date.dn(),
        r matches Err(e) ==> e == (Error::DuplicateDate { date }),
{
    let ghost es = all_day_entries@;
    let dn = date.day_num();
    let mut i: usize = 0;
    while i < all_day_entries.len()
        invariant
            es == all_day_entries@,
            i <= es.len(),
            dn as int == date.dn(),
            forall|j: int| 0 <= j < i
                ==> (#[trigger] es[j]).spec_date().dn() < date.dn(),
        decreases es.len() - i,
    {
        let edn = all_day_entries[i].date().day_num();
        if edn == dn {
            proof {
                assert(es[i as int].spec_date().dn() == date.dn());
            }
            return Err(Error::DuplicateDate { date });
        }
        if edn > dn {
            proof {
                assert forall|k: int| #![trigger es[k]]
                    !(0 <= k < es.len() && es[k].spec_date().dn() == date.dn()
                        && forall|j: int| 0 <= j < k
                            ==> (#[trigger] es[j]).spec_date().dn() < date.dn()) by {
                    if 0 <= k < es.len() && es[k].spec_date().dn() == date.dn() {
                        assert(es[i as int].spec_date().dn() > date.dn());
                        if k > i as int {
                            assert(!(es[i as int].spec_date().dn() < date.dn()));
                        }
                    }
                }
            }
            return Ok(());
        }
        i = i + 1;
    }
    proof {
        assert forall|k: int| #![trigger es[k]]
            !(0 <= k < es.len() && es[k].spec_date().dn() == date.dn()) by {
        }
    }
    Ok(())
}

/// The project lines of a new date block: `client,code: ` each.
pub open spec fn project_lines_spec(ps: Seq<Project>, k: int) -> Seq<char>
    decreases k,
{
    if k <= 0 {
        Seq::empty()
    } else {
        project_lines_spec(ps, k - 1) + ps[k - 1].spec_client() + seq![',']
            + ps[k - 1].spec_code() + ": \n"@
    }
}

/// The text of a new date block: a separating blank line unless the
/// previous line was blank, the date line, and one empty time line per
/// recent project.
pub open spec fn date_str_spec(prev_blank: bool, date: Date, ps: Seq<Project>) -> Seq<char> {
    (if prev_blank { Seq::<char>::empty() } else { seq!['\n'] })
        + "Date: "@ + day_name_spec(date.dn() % 7) + seq![' '] + date.text_spec()
        + seq!['\n'] + project_lines_spec(ps, ps.len() as int)
}

/// Builds the block of text that records `date` in the ledger.
pub fn create_date_str(prev_blank: bool, date: Date, projects: &Vec<Project>) -> (r: String)
    ensures
        r@ == date_str_spec(prev_blank, date, projects@),
{
    let ghost ps = projects@;
    let mut out: Vec<char> = Vec::new();
    if !prev_blank {
        out.push('\n');
    }
    text::push_str_chars(&mut out, "Date: ");
    let name = date.day_name();
    text::push_str_chars(&mut out, name.as_str());
    out.push(' ');
    let dt = date.to_text();
    text::push_str_chars(&mut out, dt.as_str());
    out.push('\n');
    let ghost head = out@;
    let mut k: usize = 0;
    proof {
        assert(out@ =~= head + project_lines_spec(ps, 0));
    }
    while k < projects.len()
        invariant
            ps == projects@,
            k <= ps.len(),
            head == (if prev_blank { Seq::<char>::empty() } else { seq!['\n'] })
                + "Date: "@ + day_name_spec(date.dn() % 7) + seq![' ']
                + date.text_spec() + seq!['\n'],
            out@ == head + project_lines_spec(ps, k as int),
        decreases ps.len() - k,
    {
        let p = &projects[k];
        text::push_str_chars(&mut out, p.client().as_str());
        out.push(',');
        text::push_str_chars(&mut out, p.code().as_str());
        text::push_str_chars(&mut out, ": \n");
        k = k + 1;
        proof {
            assert(out@ =~= head + project_lines_spec(ps, k as int));
        }
    }
    proof {
        assert(out@ =~= date_str_spec(prev_blank, date, ps));
    }
    text::from_chars(&out)
}

/// Whether a trimmed ledger line makes the new block go before it: a
/// date line on or after the date, or the `END` sentinel.
pub open spec fn stops_scan(line: Seq<char>, date: Date) -> bool {
    ||| (crate::parse::date_line_shape(line) matches Some(ds)
        && crate::model::date_valid_spec(
            crate::parse::date_line_year(line, ds),
            crate::parse::date_line_month(line, ds),
            crate::parse::date_line_day(line, ds))
        && crate::model::day_number_spec(
            crate::parse::date_line_year(line, ds),
            crate::parse::date_line_month(line, ds),
            crate::parse::date_line_day(line, ds)) >= date.dn())
    ||| line == "END"@
}

/// The new ledger text: the old lines with the new date block inserted
/// before the first later date line or `END`, or at the end.  The
/// state walks (inserted yet, previous line blank).
pub open spec fn appended_text_spec(
    lv: Seq<Seq<char>>, i: int, date: Date, ps: Seq<Project>,
    appended: bool, prev_blank: bool,
) -> Seq<char>
    decreases lv.len() - i,
{
    if i < 0 || i >= lv.len() {
        if appended {
            Seq::empty()
        } else {
            date_str_spec(prev_blank, date, ps)
        }
    } else {
        let line = lv[i];
        let trimmed = crate::text::trim_spec(line);
        if !appended && stops_scan(trimmed, date) {
            date_str_spec(prev_blank, date, ps) + seq!['\n'] + line + seq!['\n']
                + appended_text_spec(lv, i + 1, date, ps, true, trimmed.len() == 0)
        } else {
            line + seq!['\n']
                + appended_text_spec(lv, i + 1, date, ps, appended, trimmed.len() == 0)
        }
    }
}

/// Builds the whole new ledger content with `date`'s block inserted in
/// date order, before the `END` sentinel if the dates run out first.
#[verifier::rlimit(60)]
pub fn appended_ledger_text(
    lines: &Vec<String>, date: Date, projects: &Vec<Project>,
) -> (r: String)
    ensures
        r@ == appended_text_spec(
            crate::parse::line_views(lines@), 0, date, projects@, false, true),
{
    let ghost lv = crate::parse::line_views(lines@);
    let ghost ps = projects@;
    let mut out: Vec<char> = Vec::new();
    let mut appended = false;
    let mut prev_blank = true;
    let mut i: usize = 0;
    let dn = date.day_num();
    while i < lines.len()
        invariant
            lv == crate::parse::line_views(lines@),
            ps == projects@,
            dn as int == date.dn(),
            i <= lv.len(),
            appended_text_spec(lv, 0, date, ps, false, true)
                == out@ + appended_text_spec(
                    lv, i as int, date, ps, appended, prev_blank),
        decreases lv.len() - i,
    {
        let raw: &String = &lines[i];
        let rv = crate::text::to_chars(raw.as_str());
        let trimmed = crate::text::trim_chars(&rv);
        proof {
            assert(lv[i as int] == lines@[i as int]@);
        }
        let is_end = crate::text::str_eq_chars("END", &trimmed);
        let trimmed_str = crate::text::from_chars(&trimmed);
        let is_later = match crate::parse::try_parse_date_line(trimmed_str.as_str()) {
            Some(d) => d.day_num() >= dn,
            None => false,
        };
        proof {
            assert(is_later || is_end <==> stops_scan(trimmed@, date)) by {
                if crate::parse::date_line_shape(trimmed@) is Some {
                }
            }
        }
        if (is_later || is_end) && !appended {
            let block = create_date_str(prev_blank, date, projects);
            crate::text::push_str_chars(&mut out, block.as_str());
            out.push('\n');
            appended = true;
            crate::text::push_chars(&mut out, &rv);
            out.push('\n');
        } else {
            crate::text::push_chars(&mut out, &rv);
            out.push('\n');
        }
        prev_blank = trimmed.len() == 0;
        i = i + 1;
        proof {
            assert(appended_text_spec(lv, 0, date, ps, false, true)
                =~= out@ + appended_text_spec(
                    lv, i as int, date, ps, appended, prev_blank));
        }
    }
    if !appended {
        let block = create_date_str(prev_blank, date, projects);
        crate::text::push_str_chars(&mut out, block.as_str());
    }
    proof {
        assert(appended_text_spec(lv, 0, date, ps, false, true) =~= out@);
    }
    crate::text::from_chars(&out)
}

// --- the recently used projects ---

/// `acc` with `p` recorded at date `d`: an existing record of the
/// project keeps its place and takes the new date, a new project goes
/// to the end.
pub open spec fn upsert_recent(
    acc: Seq<(Project, Date)>, p: Project, d: Date,
) -> Seq<(Project, Date)>
    decreases acc.len(),
{
    if acc.len() == 0 {
        seq![(p, d)]
    } else if Project::same(acc.first().0, p) {
        seq![(acc.first().0, d)] + acc.drop_first()
    } else {
        seq![acc.first()] + upsert_recent(acc.drop_first(), p, d)
    }
}

/// The projects of one entry recorded over `acc`, in allocation order.
pub open spec fn record_entry(
    acc: Seq<(Project, Date)>, pts: Seq<ProjectTimes>, k: int, d: Date,
) -> Seq<(Project, Date)>
    decreases k,
{
    if k <= 0 {
        acc
    } else {
        upsert_recent(record_entry(acc, pts, k - 1, d), pts[k - 1].spec_project(), d)
    }
}

/// Every project of every entry on or after `min_date`, each recorded
/// with the date of its last entry, in first-seen order.
pub open spec fn collect_recent(
    es: Seq<DayEntry>, i: int, min_dn: int,
) -> Seq<(Project, Date)>
    decreases i,
{
    if i <= 0 {
        Seq::empty()
    } else {
        let acc = collect_recent(es, i - 1, min_dn);
        if es[i - 1].spec_date().dn() >= min_dn {
            record_entry(
                acc, es[i - 1].spec_projects(),
                es[i - 1].spec_projects().len() as int, es[i - 1].spec_date())
        } else {
            acc
        }
    }
}

/// `x` inserted into a list ordered by date, newest first; records of
/// the same date keep their earlier order.
pub open spec fn insert_desc(
    s: Seq<(Project, Date)>, x: (Project, Date),
) -> Seq<(Project, Date)>
    decreases s.len(),
{
    if s.len() == 0 {
        seq![x]
    } else if s.first().1.dn() >= x.1.dn() {
        seq![s.first()] + insert_desc(s.drop_first(), x)
    } else {
        seq![x] + s
    }
}

pub open spec fn sort_desc(s: Seq<(Project, Date)>) -> Seq<(Project, Date)>
    decreases s.len(),
{
    if s.len() == 0 {
        Seq::empty()
    } else {
        insert_desc(sort_desc(s.drop_last()), s.last())
    }
}

/// The recent projects, most recently used first: projects of entries
/// on or after `min_date`, each under its last entry date, ordered by
/// that date newest first, at most `max_to_return` of them.
pub open spec fn recent_projects_spec(
    es: Seq<DayEntry>, min_dn: int, max_to_return: int,
) -> Seq<(Project, Date)> {
    let sorted = sort_desc(collect_recent(es, es.len() as int, min_dn));
    if sorted.len() <= max_to_return {
        sorted
    } else {
        sorted.take(max_to_return)
    }
}

/// Record lists that agree project view by project view.
pub open spec fn recents_same(a: Seq<(Project, Date)>, b: Seq<(Project, Date)>) -> bool {
    a.len() == b.len() && forall|i: int| 0 <= i < a.len()
        ==> Project::same((#[trigger] a[i]).0, b[i].0) && a[i].1 == b[i].1
}

proof fn lemma_upsert_same(
    a: Seq<(Project, Date)>, b: Seq<(Project, Date)>, p: Project, q: Project, d: Date,
)
    requires
        recents_same(a, b),
        Project::same(p, q),
    ensures
        recents_same(upsert_recent(a, p, d), upsert_recent(b, q, d)),
    decreases a.len(),
{
    if a.len() == 0 {
    } else {
        assert(Project::same(a.first().0, b.first().0));
        if Project::same(a.first().0, p) {
            assert(Project::same(b.first().0, q));
            assert(recents_same(
                seq![(a.first().0, d)] + a.drop_first(),
                seq![(b.first().0, d)] + b.drop_first()));
        } else {
            assert(!Project::same(b.first().0, q));
            assert(recents_same(a.drop_first(), b.drop_first())) by {
                assert(forall|i: int| 0 <= i < a.len() - 1
                    ==> #[trigger] a.drop_first()[i] == a[i + 1]
                        && b.drop_first()[i] == b[i + 1]);
            }
            lemma_upsert_same(a.drop_first(), b.drop_first(), p, q, d);
            assert(recents_same(
                seq![a.first()] + upsert_recent(a.drop_first(), p, d),
                seq![b.first()] + upsert_recent(b.drop_first(), q, d)));
        }
    }
}

/// Finds and updates the project's record in an executable list, or
/// appends a new one.
fn upsert_recent_exec(acc: &mut Vec<(Project, Date)>, p: &Project, d: Date)
    ensures
        recents_same(final(acc)@, upsert_recent(old(acc)@, *p, d)),
{
    let ghost acc0 = acc@;
    let n = acc.len();
    let mut i: usize = 0;
    while i < n
        invariant
            n == acc@.len(),
            acc@ == acc0,
            acc0 == old(acc)@,
            i <= n,
            forall|j: int| 0 <= j < i
                ==> !Project::same((#[trigger] acc0[j]).0, *p),
        decreases n - i,
    {
        if acc[i].0 == *p {
            let fresh = acc[i].0.duplicate();
            acc.set(i, (fresh, d));
            proof {
                lemma_upsert_at(acc0, *p, d, i as int);
                let u = upsert_recent(acc0, *p, d);
                assert forall|j: int| 0 <= j < acc@.len()
                    implies Project::same((#[trigger] acc@[j]).0, u[j].0)
                        && acc@[j].1 == u[j].1 by {
                    if j == i as int {
                        assert(acc@[j] == (fresh, d));
                        assert(u[j] == (acc0[j].0, d));
                    } else {
                        assert(acc@[j] == acc0[j] && u[j] == acc0[j]);
                    }
                }
            }
            return;
        }
        i = i + 1;
    }
    acc.push((p.duplicate(), d));
    proof {
        lemma_upsert_at(acc0, *p, d, acc0.len() as int);
        let u = upsert_recent(acc0, *p, d);
        assert forall|j: int| 0 <= j < acc@.len()
            implies Project::same((#[trigger] acc@[j]).0, u[j].0)
                && acc@[j].1 == u[j].1 by {
            if j < acc0.len() {
                assert(acc@[j] == acc0[j] && u[j] == acc0[j]);
            } else {
                assert(u[j] == (*p, d));
            }
        }
    }
}

/// Where the upsert lands: the first record of the same project, or
/// the end.
proof fn lemma_upsert_at(acc: Seq<(Project, Date)>, p: Project, d: Date, at: int)
    requires
        0 <= at <= acc.len(),
        forall|j: int| 0 <= j < at ==> !Project::same((#[trigger] acc[j]).0, p),
        at < acc.len() ==> Project::same(acc[at].0, p),
    ensures
        at < acc.len() ==> upsert_recent(acc, p, d)
            =~= acc.update(at, (acc[at].0, d)),
        at == acc.len() ==> upsert_recent(acc, p, d) =~= acc.push((p, d)),
    decreases acc.len(),
{
    if acc.len() > 0 {
        if Project::same(acc.first().0, p) {
            assert(at == 0);
        } else {
            assert(at >= 1);
            let dr = acc.drop_first();
            assert(forall|j: int| 0 <= j < at - 1
                ==> #[trigger] dr[j] == acc[j + 1]);
            lemma_upsert_at(dr, p, d, at - 1);
            if at < acc.len() {
                assert(dr[at - 1] == acc[at]);
                assert(seq![acc.first()] + dr.update(at - 1, (acc[at].0, d))
                    =~= acc.update(at, (acc[at].0, d)));
            } else {
                assert(seq![acc.first()] + dr.push((p, d)) =~= acc.push((p, d)));
            }
        }
    }
}

/// The projects used in entries on or after `min_date`, most recently
/// used first, at most `max_to_return` of them.
pub fn recent_projects(
    all_day_entries: &Vec<DayEntry>, min_date: Date, max_to_return: usize,
) -> (r: Vec<Project>)
    ensures
        ({
            let expected = recent_projects_spec(
                all_day_entries@, min_date.dn(), max_to_return as int);
            r@.len() == expected.len()
                && forall|i: int| 0 <= i < expected.len()
                    ==> Project::same(#[trigger] r@[i], expected[i].0)
        }),
{
    let ghost es = all_day_entries@;
    let min_dn = min_date.day_num();
    let mut acc: Vec<(Project, Date)> = Vec::new();
    let mut i: usize = 0;
    while i < all_day_entries.len()
        invariant
            es == all_day_entries@,
            min_dn as int == min_date.dn(),
            i <= es.len(),
            recents_same(acc@, collect_recent(es, i as int, min_dn as int)),
        decreases es.len() - i,
    {
        let e = &all_day_entries[i];
        let d = e.date();
        if d.day_num() >= min_dn {
            let pts = e.projects();
            let ghost pseq = e.spec_projects();
            let ghost before = collect_recent(es, i as int, min_dn as int);
            let mut k: usize = 0;
            while k < pts.len()
                invariant
                    pts@ == pseq,
                    d == e.spec_date(),
                    es == all_day_entries@,
                    i < es.len(),
                    e == &es[i as int],
                    k <= pseq.len(),
                    before == collect_recent(es, i as int, min_dn as int),
                    recents_same(acc@, record_entry(before, pseq, k as int, d)),
                decreases pseq.len() - k,
            {
                let pref = pts[k].project();
                let ghost prev = acc@;
                upsert_recent_exec(&mut acc, pref, d);
                k = k + 1;
                proof {
                    lemma_upsert_same(
                        prev, record_entry(before, pseq, k as int - 1, d),
                        *pref, pseq[k - 1].spec_project(), d);
                    lemma_recents_same_trans(
                        acc@, upsert_recent(prev, *pref, d),
                        record_entry(before, pseq, k as int, d));
                }
            }
        }
        i = i + 1;
    }
    let mut sorted: Vec<(Project, Date)> = Vec::new();
    let ghost coll = collect_recent(es, es.len() as int, min_dn as int);
    let mut s: usize = 0;
    while s < acc.len()
        invariant
            recents_same(acc@, coll),
            s <= acc@.len(),
            recents_same(sorted@, sort_desc(coll.take(s as int))),
            forall|a: int, b: int| #![trigger sorted@[a], sorted@[b]]
                0 <= a < b < sorted@.len()
                ==> sorted@[a].1.dn() >= sorted@[b].1.dn(),
        decreases acc@.len() - s,
    {
        let x_p = acc[s].0.duplicate();
        let x_d = acc[s].1;
        let mut pos: usize = 0;
        while pos < sorted.len() && sorted[pos].1.day_num() >= x_d.day_num()
            invariant
                pos <= sorted@.len(),
                forall|j: int| 0 <= j < pos
                    ==> (#[trigger] sorted@[j]).1.dn() >= x_d.dn(),
            decreases sorted@.len() - pos,
        {
            pos = pos + 1;
        }
        let ghost sorted0 = sorted@;
        sorted.insert(pos, (x_p, x_d));
        proof {
            assert(coll.take(s as int + 1).drop_last() =~= coll.take(s as int));
            assert(coll.take(s as int + 1).last() == coll[s as int]);
            assert(sort_desc(coll.take(s as int + 1))
                == insert_desc(sort_desc(coll.take(s as int)), coll[s as int]));
            lemma_insert_desc_at(
                sort_desc(coll.take(s as int)), sorted0, coll[s as int],
                (acc@[s as int].0, acc@[s as int].1), pos as int);
            assert(Project::same(x_p, coll[s as int].0));
            assert(x_d == coll[s as int].1);
            assert(recents_same(sorted@,
                sort_desc(coll.take(s as int + 1)))) by {
                let spc = sort_desc(coll.take(s as int))
                    .take(pos as int) + seq![coll[s as int]]
                    + sort_desc(coll.take(s as int)).skip(pos as int);
                assert(sort_desc(coll.take(s as int + 1)) =~= spc);
                assert forall|j: int| 0 <= j < sorted@.len()
                    implies Project::same((#[trigger] sorted@[j]).0, spc[j].0)
                        && sorted@[j].1 == spc[j].1 by {
                    if j < pos as int {
                        assert(sorted@[j] == sorted0[j]);
                    } else if j == pos as int {
                    } else {
                        assert(sorted@[j] == sorted0[j - 1]);
                    }
                }
            }
            assert forall|a: int, b: int| #![trigger sorted@[a], sorted@[b]]
                0 <= a < b < sorted@.len()
                implies sorted@[a].1.dn() >= sorted@[b].1.dn() by {
                let ra = if a < pos as int { sorted0[a] } else if a == pos as int {
                    (x_p, x_d)
                } else {
                    sorted0[a - 1]
                };
                assert(sorted@[a] == ra);
                let rb = if b < pos as int { sorted0[b] } else if b == pos as int {
                    (x_p, x_d)
                } else {
                    sorted0[b - 1]
                };
                assert(sorted@[b] == rb);
                if b == pos as int {
                    assert(sorted0[a].1.dn() >= x_d.dn());
                } else if a == pos as int {
                    assert(!(sorted0[pos as int].1.dn() >= x_d.dn()));
                    if b - 1 > pos as int {
                        assert(sorted0[pos as int].1.dn() >= sorted0[b - 1].1.dn());
                    }
                }
            }
        }
        s = s + 1;
    }
    proof {
        assert(coll.take(coll.len() as int) =~= coll);
    }
    let mut r: Vec<Project> = Vec::new();
    let limit = if sorted.len() < max_to_return { sorted.len() } else { max_to_return };
    let mut t: usize = 0;
    while t < limit
        invariant
            t <= limit,
            limit <= sorted@.len(),
            limit == (if sorted@.len() < max_to_return as int {
                sorted@.len() as int
            } else {
                max_to_return as int
            }),
            recents_same(sorted@, sort_desc(coll)),
            r@.len() == t,
            forall|j: int| 0 <= j < t
                ==> Project::same(#[trigger] r@[j], sort_desc(coll)[j].0),
        decreases limit - t,
    {
        r.push(sorted[t].0.duplicate());
        t = t + 1;
    }
    r
}

proof fn lemma_recents_same_trans(
    a: Seq<(Project, Date)>, b: Seq<(Project, Date)>, c: Seq<(Project, Date)>,
)
    requires
        recents_same(a, b),
        recents_same(b, c),
    ensures
        recents_same(a, c),
{
}

/// Where the date-ordered insert lands: before the first strictly
/// older record.
proof fn lemma_insert_desc_at(
    spec_s: Seq<(Project, Date)>, exec_s: Seq<(Project, Date)>, x: (Project, Date),
    x2: (Project, Date), pos: int,
)
    requires
        recents_same(exec_s, spec_s),
        Project::same(x2.0, x.0),
        x2.1 == x.1,
        0 <= pos <= spec_s.len(),
        forall|j: int| 0 <= j < pos ==> (#[trigger] exec_s[j]).1.dn() >= x.1.dn(),
        pos < spec_s.len() ==> !(exec_s[pos].1.dn() >= x.1.dn()),
    ensures
        insert_desc(spec_s, x)
            =~= spec_s.take(pos) + seq![x] + spec_s.skip(pos),
    decreases spec_s.len(),
{
    if spec_s.len() == 0 {
        assert(insert_desc(spec_s, x) =~= spec_s.take(pos) + seq![x] + spec_s.skip(pos));
    } else if spec_s.first().1.dn() >= x.1.dn() {
        assert(exec_s[0].1 == spec_s.first().1);
        assert(pos >= 1);
        let dr = spec_s.drop_first();
        let dre = exec_s.drop_first();
        assert(recents_same(dre, dr)) by {
            assert(forall|j: int| 0 <= j < dr.len()
                ==> #[trigger] dre[j] == exec_s[j + 1] && dr[j] == spec_s[j + 1]);
        }
        assert(forall|j: int| 0 <= j < pos - 1
            ==> (#[trigger] dre[j]).1.dn() >= x.1.dn()) by {
            assert(forall|j: int| 0 <= j < dr.len() ==> #[trigger] dre[j] == exec_s[j + 1]);
        }
        lemma_insert_desc_at(dr, dre, x, x2, pos - 1);
        assert(seq![spec_s.first()] + (dr.take(pos - 1) + seq![x] + dr.skip(pos - 1))
            =~= spec_s.take(pos) + seq![x] + spec_s.skip(pos));
    } else {
        assert(exec_s[0].1 == spec_s.first().1);
        assert(pos == 0);
        assert(seq![x] + spec_s =~= spec_s.take(0) + seq![x] + spec_s.skip(0));
    }
}

} // verus!
