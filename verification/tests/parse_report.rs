use time_report::error::Error;
use time_report::model::{
    find_overlapping_time_ranges, Date, DateRange, DayEntry, Project, ProjectTimes,
    Time, TimeRange,
};
use time_report::parse::{
    is_date_line, is_empty_time_line, is_time_line, parse_date_line, parse_lines,
    parse_time, parse_time_range, parse_time_ranges, remove_comments,
    try_parse_date_line,
};
use time_report::report::{billable_minutes, create_report, ReportMode};

fn time(h: u16, m: u16) -> Time {
    Time::new(h, m).unwrap()
}

fn time_range(h1: u16, m1: u16, h2: u16, m2: u16) -> TimeRange {
    TimeRange::new(time(h1, m1), time(h2, m2)).unwrap()
}

fn lines_of(content: &str) -> Vec<String> {
    content.lines().map(|s| s.to_string()).collect()
}

#[test]
fn test_parse_time_ranges() {
    let time_range_str = "0800-1200,1300-1310,1318-1708";
    let expected = vec![
        time_range(8, 0, 12, 0),
        time_range(13, 0, 13, 10),
        time_range(13, 18, 17, 8),
    ];

    assert_eq!(parse_time_ranges(time_range_str).unwrap().0, expected);
}

#[test]
fn test_remove_comments() {
    assert_eq!("", remove_comments(""));
    assert_eq!("", remove_comments("--"));
    assert_eq!("", remove_comments("    --  ignored"));
    assert_eq!("xyz", remove_comments(" xyz   --  ignored"));
    assert_eq!("xyz", remove_comments(" xyz --first  --  second"));
}

#[test]
fn test_parse_date_line() {
    let line = "Date: Thursday 04/03/2025";
    let expected = Date::new(2025, 4, 3).unwrap();

    assert_eq!(parse_date_line(line).unwrap(), expected);
}

#[test]
fn test_parse_label_line() {
    let line = "abc,xyz: 0800-1200,1300-1310,1318-1708";
    let expected = ProjectTimes::new(
        Project::new("abc", "xyz"),
        &vec![
            time_range(8, 0, 12, 0),
            time_range(13, 0, 13, 10),
            time_range(13, 18, 17, 8),
        ],
    );
    assert_eq!(
        time_report::parse::parse_time_line(line).unwrap().0,
        expected.unwrap()
    );
}

#[test]
fn test_parse_file() {
    let content =
        "Date: Thursday 04/03/2025\n\nabc,xyz: 0800-1200,1300-1310,1318-1708\ndef,uvw: 1200-1300\n";

    let expected = vec![DayEntry::new(
        Date::new(2025, 4, 3).unwrap(),
        vec![
            ProjectTimes::new(
                Project::new("abc", "xyz"),
                &vec![
                    time_range(8, 0, 12, 0),
                    time_range(13, 0, 13, 10),
                    time_range(13, 18, 17, 8),
                ],
            )
            .unwrap(),
            ProjectTimes::new(
                Project::new("def", "uvw"),
                &vec![time_range(12, 0, 13, 0)],
            )
            .unwrap(),
        ],
        1,
    )];

    let result = parse_lines(&lines_of(content)).unwrap();

    assert_eq!(result.0, expected);
    assert!(result.1.is_empty());
}

#[test]
fn test_find_overlapping_time_ranges() {
    let t13 = time_range(1, 0, 3, 0);
    let t24 = time_range(2, 0, 4, 0);
    let t34 = time_range(3, 0, 4, 0);
    let t35 = time_range(3, 0, 5, 0);
    let t56 = time_range(5, 0, 6, 0);
    let empty: Vec<TimeRange> = vec![];
    let no_match: Vec<TimeRange> = vec![];

    assert_eq!(no_match, find_overlapping_time_ranges(&empty));
    assert_eq!(no_match, find_overlapping_time_ranges(&vec![t13, t35]));
    assert_eq!(
        vec![t13, t24, t35],
        find_overlapping_time_ranges(&vec![t13, t35, t24])
    );
    assert_eq!(
        no_match,
        find_overlapping_time_ranges(&vec![t13, t35, t56])
    );
    assert_eq!(
        vec![t34, t35],
        find_overlapping_time_ranges(&vec![t13, t34, t35, t56])
    );
}

#[test]
fn test_project_times_conflicts() {
    // Construction fails exactly when two ranges overlap, and the
    // error lists every conflicting range in order.
    let ok = ProjectTimes::new(
        Project::new("abc", "xyz"),
        &vec![time_range(13, 0, 14, 0), time_range(8, 0, 12, 0)],
    )
    .unwrap();
    let sorted: Vec<TimeRange> = ok.time_ranges().clone();
    assert_eq!(vec![time_range(8, 0, 12, 0), time_range(13, 0, 14, 0)], sorted);

    let err = ProjectTimes::new(
        Project::new("abc", "xyz"),
        &vec![time_range(8, 0, 12, 0), time_range(11, 0, 13, 0)],
    );
    match err {
        Err(Error::ConflictingTimeRanges { client, code, conflicts }) => {
            assert_eq!("abc", client);
            assert_eq!("xyz", code);
            assert_eq!(
                vec![time_range(8, 0, 12, 0), time_range(11, 0, 13, 0)],
                conflicts
            );
        }
        _ => panic!("expected a conflict error"),
    }
}

#[test]
fn test_line_classification() {
    assert!(is_date_line("Date: Thursday 04/03/2025"));
    assert!(!is_date_line("Date: 04/03/2025"));
    assert!(!is_date_line("Date: Thursday 04/03/2025 extra"));
    assert!(is_time_line("abc,xyz: 0800-1200"));
    assert!(is_time_line("abc,xyz,sub: 0800-1200"));
    assert!(!is_time_line("Abc,xyz: 0800-1200"));
    assert!(is_empty_time_line("abc,xyz: "));
    assert!(is_empty_time_line("abc,xyz:"));
    assert!(!is_empty_time_line("abc,xyz: 0800-1200"));
    assert_eq!(
        Some(Date::new(2025, 4, 3).unwrap()),
        try_parse_date_line("Date: Thursday 04/03/2025")
    );
    assert_eq!(None, try_parse_date_line("abc,xyz: 0800-1200"));
}

#[test]
fn test_parse_time_helpers() {
    assert_eq!(time(8, 30), parse_time("0830").unwrap());
    assert!(parse_time("24x").is_err());
    assert!(matches!(parse_time("2500"), Err(Error::InvalidTime)));
    assert_eq!(
        time_range(8, 0, 12, 30),
        parse_time_range("0800-1230").unwrap()
    );
    assert!(matches!(
        parse_time_range("1200-1100"),
        Err(Error::OutOfOrderTimeRange)
    ));
    assert!(matches!(
        parse_time_range("junk"),
        Err(Error::InvalidTimeRange { .. })
    ));
}

#[test]
fn test_time_line_before_date_is_fatal() {
    // An allocation line before any date line stops parsing at once.
    let content = "abc,xyz: 0800-1200\nDate: Thursday 04/03/2025\n";
    let result = parse_lines(&lines_of(content));
    match result {
        Err(Error::TimeLineWithNoDate { line_number, line }) => {
            assert_eq!(1, line_number);
            assert_eq!("abc,xyz: 0800-1200", line);
        }
        _ => panic!("expected a fatal error"),
    }
}

#[test]
fn test_parse_warnings() {
    let content = "Date: Friday 04/04/2025\n\
        abc,xyz: \n\
        what is this line\n\
        abc,xyz: 0800-1200,1300-\n\
        Date: Thursday 04/03/2025\n";
    let (days, warnings) = parse_lines(&lines_of(content)).unwrap();
    assert_eq!(2, days.len());
    assert_eq!(
        vec![
            "incomplete time line:2: line: 'abc,xyz: '".to_string(),
            "invalid line:3: line: 'what is this line'".to_string(),
            "incomplete time range:4: date='04/04/2025' line='abc,xyz: 0800-1200,1300-'"
                .to_string(),
            "out of order dates:5: prev='04/04/2025' new='04/03/2025'".to_string(),
        ],
        warnings
    );
    // The dangling range is excluded from the parsed day.
    assert_eq!(1, days[0].projects().len());
    assert_eq!(
        &vec![time_range(8, 0, 12, 0)],
        days[0].projects()[0].time_ranges()
    );
}

#[test]
fn test_end_swallows_tail() {
    // END stops parsing at once; the open day is not kept.
    let content = "Date: Thursday 04/03/2025\nabc,xyz: 0800-1200\nEND\n\
        Date: Friday 04/04/2025\n";
    let (days, warnings) = parse_lines(&lines_of(content)).unwrap();
    assert!(days.is_empty());
    assert!(warnings.is_empty());

    let content2 = "Date: Thursday 04/03/2025\nabc,xyz: 0800-1200 -- worked\n";
    let (days2, _) = parse_lines(&lines_of(content2)).unwrap();
    assert_eq!(1, days2.len());
    assert_eq!(1, days2[0].projects().len());
}

#[test]
fn test_billable_minutes() {
    assert_eq!(90, billable_minutes(97));
    assert_eq!(105, billable_minutes(105));
    assert_eq!(0, billable_minutes(14));
    assert_eq!(0, billable_minutes(0));
    for m in 0..200 {
        assert_eq!(m - (m % 15), billable_minutes(m));
    }
}

#[test]
fn test_report_zero_week() {
    // One project with no booked minutes: every cell renders `-`.
    let day = DayEntry::new(
        Date::new(2025, 4, 7).unwrap(),
        vec![ProjectTimes::new(Project::new("abc", "xyz"), &vec![]).unwrap()],
        1,
    );
    let dates = DateRange::new(
        Date::new(2025, 4, 7).unwrap(),
        Date::new(2025, 4, 13).unwrap(),
    );
    let lines = create_report(dates, &vec![day], ReportMode::Detail).unwrap();
    let cell = "       -";
    let mut day_cells = String::new();
    for _ in 0..7 {
        day_cells.push_str(cell);
    }
    assert_eq!(12, lines.len());
    assert_eq!(
        "                MON     TUE     WED     THU     FRI     SAT     SUN",
        lines[0]
    );
    assert_eq!(
        "PROJECT       04/07   04/08   04/09   04/10   04/11   04/12   04/13   TOTALS  REPORT",
        lines[1]
    );
    assert_eq!(format!("abc,xyz    {}        -       -", day_cells), lines[2]);
    assert_eq!(format!("TOTALS     {}        -", day_cells), lines[3]);
    assert_eq!(format!("REPORT     {}        -", day_cells), lines[4]);
    assert_eq!("", lines[5]);
    assert_eq!("", lines[6]);
    assert_eq!("PROJECT     TOTALS   REPORT", lines[7]);
    assert_eq!("abc,xyz          -        -", lines[8]);
    assert_eq!("TOTALS           -", lines[9]);
    assert_eq!("REPORT           -", lines[10]);
    assert_eq!("DELTA       - 8:00", lines[11]);
}

#[test]
fn test_report_single_week_totals() {
    // One Thursday with two projects: totals and billable rounding.
    let content =
        "Date: Thursday 04/03/2025\n\nabc,xyz: 0800-1200,1300-1310,1318-1708\ndef,uvw: 1200-1300\n";
    let (days, _) = parse_lines(&lines_of(content)).unwrap();
    let dates = DateRange::new(
        Date::new(2025, 4, 3).unwrap(),
        Date::new(2025, 4, 3).unwrap(),
    );
    let lines = create_report(dates, &days, ReportMode::Detail).unwrap();
    // abc,xyz: 240 + 10 + 230 = 480 minutes, all billable.
    assert!(lines[2].starts_with("abc,xyz"));
    assert!(lines[2].contains(" 8:00"));
    // def,uvw: 60 minutes.
    assert!(lines[3].starts_with("def,uvw"));
    assert!(lines[3].contains(" 1:00"));
    // The week total row books 540 minutes.
    assert!(lines[4].starts_with("TOTALS"));
    assert!(lines[4].contains(" 9:00"));
}

#[test]
fn test_validate_date() {
    let day = |y, m, d| {
        DayEntry::new(Date::new(y, m, d).unwrap(), vec![], 1)
    };
    let entries = vec![day(2025, 4, 1), day(2025, 4, 3)];
    assert!(time_report::append::validate_date(
        &entries, Date::new(2025, 4, 2).unwrap()).is_ok());
    assert!(matches!(
        time_report::append::validate_date(&entries, Date::new(2025, 4, 3).unwrap()),
        Err(Error::DuplicateDate { .. })
    ));
}

#[test]
fn test_create_date_str() {
    let projects = vec![Project::new("abc", "xyz")];
    let text = time_report::append::create_date_str(
        true, Date::new(2025, 4, 3).unwrap(), &projects);
    assert_eq!("Date: Thursday 04/03/2025\nabc,xyz: \n", text);
    let text2 = time_report::append::create_date_str(
        false, Date::new(2025, 4, 3).unwrap(), &vec![]);
    assert_eq!("\nDate: Thursday 04/03/2025\n", text2);
}

#[test]
fn test_error_variants() {
    assert!(matches!(
        Date::new(2025, 2, 30),
        Err(Error::InvalidDate { year: 2025, month: 2, day: 30 })
    ));
    assert!(matches!(Time::new(24, 0), Err(Error::InvalidTime)));
    assert!(matches!(
        TimeRange::new(Time::new(12, 0).unwrap(), Time::new(11, 0).unwrap()),
        Err(Error::OutOfOrderTimeRange)
    ));
    assert!(matches!(
        parse_time("abc"),
        Err(Error::InvalidTimeText { .. })
    ));
    assert!(matches!(
        Date::parse("no digits here"),
        Err(Error::InvalidDateText { .. })
    ));
    assert!(matches!(
        parse_time_ranges("garbage"),
        Err(Error::InvalidTimeRanges { .. })
    ));
    assert!(matches!(
        time_report::parse::parse_time_line("not a time line"),
        Err(Error::InvalidTimeLine { .. })
    ));
    assert!(matches!(
        parse_date_line("nope"),
        Err(Error::InvalidDateLine { .. })
    ));
    let none: Vec<time_report::watch::menu::MenuItem<u8>> = vec![];
    assert!(matches!(
        time_report::watch::menu::Menu::new(none),
        Err(Error::NoMenuItems)
    ));
}

#[test]
fn test_recent_projects() {
    let day = |y: u16, m: u8, d: u8, names: &[(&str, &str)]| {
        DayEntry::new(
            Date::new(y, m, d).unwrap(),
            names
                .iter()
                .map(|(c, p)| {
                    ProjectTimes::new(Project::new(c, p), &vec![]).unwrap()
                })
                .collect(),
            1,
        )
    };
    let entries = vec![
        day(2025, 3, 1, &[("old", "stuff")]),
        day(2025, 4, 1, &[("abc", "xyz"), ("def", "uvw")]),
        day(2025, 4, 2, &[("abc", "xyz")]),
        day(2025, 4, 3, &[("ghi", "rst")]),
    ];
    let recent = time_report::append::recent_projects(
        &entries,
        Date::new(2025, 3, 15).unwrap(),
        2,
    );
    // Projects before the minimum date are dropped; the rest come
    // newest first; the list is capped.
    assert_eq!(2, recent.len());
    assert_eq!("ghi", recent[0].client());
    assert_eq!("abc", recent[1].client());

    let all = time_report::append::recent_projects(
        &entries,
        Date::new(2025, 3, 15).unwrap(),
        10,
    );
    assert_eq!(3, all.len());
    assert_eq!("ghi", all[0].client());
    assert_eq!("abc", all[1].client());
    assert_eq!("def", all[2].client());
}

#[test]
fn test_appended_ledger_text() {
    let date = Date::new(2025, 4, 2).unwrap();
    let projects = vec![Project::new("abc", "xyz")];
    // Inserted before the first later date, after a blank line.
    let lines = lines_of("Date: Tuesday 04/01/2025\nabc,xyz: 0800-0900\n\nDate: Thursday 04/03/2025\n");
    let merged = time_report::append::appended_ledger_text(&lines, date, &projects);
    assert_eq!(
        "Date: Tuesday 04/01/2025\nabc,xyz: 0800-0900\n\n\
         Date: Wednesday 04/02/2025\nabc,xyz: \n\n\
         Date: Thursday 04/03/2025\n",
        merged
    );
    // Inserted before END when no later date exists.
    let lines2 = lines_of("Date: Tuesday 04/01/2025\nEND\nscratch");
    let merged2 = time_report::append::appended_ledger_text(&lines2, date, &projects);
    assert_eq!(
        "Date: Tuesday 04/01/2025\n\nDate: Wednesday 04/02/2025\nabc,xyz: \n\nEND\nscratch\n",
        merged2
    );
    // Appended at the end otherwise.
    let lines3 = lines_of("Date: Tuesday 04/01/2025\n");
    let merged3 = time_report::append::appended_ledger_text(&lines3, date, &projects);
    assert_eq!(
        "Date: Tuesday 04/01/2025\n\nDate: Wednesday 04/02/2025\nabc,xyz: \n",
        merged3
    );
}

#[test]
fn test_remove_comments_repeated() {
    // Stripping works from the last marker backwards, one round at a
    // time, so overlapping markers leave the shortest prefix standing.
    assert_eq!("-", remove_comments("---"));
    assert_eq!("a", remove_comments("a-- b --c"));
    assert_eq!(" xyz", remove_comments(" xyz"));
}

#[test]
fn test_summary_collapses_subcodes() {
    // A Summary report equals the Detail report of the ledger with all
    // subcodes dropped first: collapsed projects share one real row.
    let content = "Date: Monday 04/07/2025\n\
        abc,xyz,one: 0800-0900\n\
        abc,xyz,two: 0900-1000\n\
        def,uvw: 1000-1100\n";
    let collapsed_content = "Date: Monday 04/07/2025\n\
        abc,xyz: 0800-0900\n\
        abc,xyz: 0900-1000\n\
        def,uvw: 1000-1100\n";
    let (days, _) = parse_lines(&lines_of(content)).unwrap();
    let (collapsed_days, _) = parse_lines(&lines_of(collapsed_content)).unwrap();
    let dates = DateRange::new(
        Date::new(2025, 4, 7).unwrap(),
        Date::new(2025, 4, 13).unwrap(),
    );
    let summary = create_report(dates, &days, ReportMode::Summary).unwrap();
    let detail = create_report(dates, &collapsed_days, ReportMode::Detail).unwrap();
    assert_eq!(detail, summary);
    // One collapsed row for abc,xyz carrying both subcodes' minutes.
    assert!(summary[2].starts_with("abc,xyz "));
    assert!(summary[2].contains(" 2:00"));
    assert!(summary[3].starts_with("def,uvw "));
    // The Detail report of the same ledger keeps the subcode rows.
    let plain = create_report(dates, &days, ReportMode::Detail).unwrap();
    assert!(plain[2].starts_with("abc,xyz,one"));
    assert!(plain[3].starts_with("abc,xyz,two"));
    assert!(plain[4].starts_with("def,uvw"));
}
