use layra::ir::charts::{GanttChart, GanttSection, GanttTask, TaskStatus};
use layra::ir::linear::GitOp;
use layra::parser::gantt::{parse_date, parse_gantt};
use layra::render::gantt::format_date;
use layra::parser::git::parse_git;
use layra::parser::linear::{parse_journey, parse_timeline};
use layra::parser::pie::parse_pie;

fn lines(src: &str) -> Vec<(usize, Vec<char>)> {
    src.lines()
        .enumerate()
        .map(|(i, l)| (i + 1, l.trim().chars().collect::<Vec<char>>()))
        .filter(|(_, l)| !l.is_empty())
        .collect()
}

#[test]
fn date_math_is_correct() {
    assert_eq!(parse_date("1970-01-01"), Some(0));
    assert_eq!(parse_date("1970-01-31"), Some(30));
    assert_eq!(parse_date("2026-01-01"), Some(20454));
}

#[test]
fn bad_dates_are_rejected() {
    assert_eq!(parse_date("2026-13-01"), None);
    assert_eq!(parse_date("2026-01-32"), None);
    assert_eq!(parse_date("2026-01"), None);
    assert_eq!(parse_date("2026-01-01-01"), None);
    assert_eq!(parse_date("+2026-01-01"), Some(20454));
    assert_eq!(parse_date("1969-12-31"), Some(-1));
}

#[test]
fn parses_sections_and_after_dependency() {
    let (chart, warnings, fatal) = parse_gantt(&lines(
        "title Plan\n\
         dateFormat YYYY-MM-DD\n\
         section Build\n\
         Engine :done, eng, 2026-01-01, 30d\n\
         Playground :active, play, after eng, 14d\n\
         section Ship\n\
         Launch :milestone, 2026-03-01, 0d",
    ));
    assert!(!fatal);
    assert!(warnings.is_empty());
    assert_eq!(chart.title.as_deref(), Some("Plan"));
    assert_eq!(chart.sections.len(), 2);

    let eng = &chart.sections[0].tasks[0];
    assert_eq!(eng.status, TaskStatus::Done);
    assert_eq!(eng.end - eng.start, 30);

    let play = &chart.sections[0].tasks[1];
    assert_eq!(play.start, eng.end, "after eng");
    assert_eq!(play.status, TaskStatus::Active);

    let launch = &chart.sections[1].tasks[0];
    assert!(launch.milestone);
}

#[test]
fn gantt_durations_weeks_and_months() {
    let (chart, warnings, _) = parse_gantt(&lines("A : 2026-01-01, 2w\nB : 1m\nC : x"));
    assert_eq!(warnings.len(), 0);
    let t = &chart.sections[0].tasks;
    assert_eq!(t[0].end - t[0].start, 14);
    assert_eq!(t[1].start, t[0].end);
    assert_eq!(t[1].end - t[1].start, 30);
    assert_eq!(t[2].id.as_deref(), Some("x"));
    assert_eq!(t[2].end - t[2].start, 1);
}

#[test]
fn gantt_line_without_colon_warns() {
    let (_, warnings, _) = parse_gantt(&lines("section S\nnot a task"));
    assert_eq!(warnings.len(), 1);
    assert_eq!(warnings[0].line(), 2);
}

#[test]
fn gantt_non_ascii_duration_tail_is_flagged() {
    let (_, _, fatal) = parse_gantt(&lines("Task : café"));
    assert!(fatal);
}

#[test]
fn time_range_spans_all_tasks() {
    let chart = GanttChart {
        title: None,
        sections: vec![
            GanttSection {
                name: "a".into(),
                tasks: vec![GanttTask {
                    label: "x".into(),
                    id: None,
                    start: 5,
                    end: 9,
                    status: TaskStatus::Planned,
                    milestone: false,
                }],
            },
            GanttSection {
                name: "b".into(),
                tasks: vec![GanttTask {
                    label: "y".into(),
                    id: None,
                    start: 2,
                    end: 7,
                    status: TaskStatus::Done,
                    milestone: false,
                }],
            },
        ],
    };
    assert_eq!(chart.time_range(), Some((2, 9)));
    assert_eq!(chart.tasks().len(), 2);
    assert_eq!(GanttChart { title: None, sections: vec![] }.time_range(), None);
}

#[test]
fn header_show_data() {
    let (chart, _) = parse_pie("showData title X", &Vec::new());
    assert!(chart.show_data);
    assert_eq!(chart.title.as_deref(), Some("X"));
}

#[test]
fn parses_title_and_slices() {
    let src = vec![
        (2usize, "title Language share".chars().collect::<Vec<char>>()),
        (3usize, r#""Rust" : 62"#.chars().collect::<Vec<char>>()),
        (4usize, r#""TypeScript" : 28.5"#.chars().collect::<Vec<char>>()),
    ];
    let (chart, warnings) = parse_pie("", &src);
    assert!(warnings.is_empty());
    assert_eq!(chart.title.as_deref(), Some("Language share"));
    assert_eq!(chart.slices.len(), 2);
    assert_eq!(chart.slices[1].1.parse::<f64>().unwrap(), 28.5);
}

#[test]
fn malformed_pie_slice_warns() {
    let src = vec![(7usize, "Rust 62".chars().collect::<Vec<char>>())];
    let (chart, warnings) = parse_pie("", &src);
    assert!(chart.slices.is_empty());
    assert_eq!(warnings[0].to_text(), "line 7: cannot parse pie slice 'Rust 62'");
}

#[test]
fn timeline_periods_and_continuations() {
    let (tl, w) = parse_timeline(&lines("title History\nsection 2024\nQ1 : idea : prototype\n: extra\nQ2 : launch"));
    assert!(w.is_empty());
    assert_eq!(tl.periods.len(), 2);
    assert_eq!(tl.periods[0].events, vec!["idea", "prototype", "extra"]);
    assert_eq!(tl.periods[0].section.as_deref(), Some("2024"));
}

#[test]
fn timeline_continuation_without_period_warns() {
    let (_, w) = parse_timeline(&lines(": orphan"));
    assert_eq!(w[0].to_text(), "line 1: event continuation before any period");
}

#[test]
fn journey_scores_and_actors() {
    let (j, w) = parse_journey(&lines("title Day\nsection Morning\nWake up: 3: Me\nCoffee: 5: Me, Cat"));
    assert!(w.is_empty());
    assert_eq!(j.sections[0].tasks.len(), 2);
    assert_eq!(j.sections[0].tasks[1].score, 5);
    assert_eq!(j.sections[0].tasks[1].actors, vec!["Me", "Cat"]);
}

#[test]
fn journey_rejects_bad_score() {
    let (_, w) = parse_journey(&lines("Task: 9: Me"));
    assert_eq!(w.len(), 1);
}

#[test]
fn journey_task_before_section_opens_unnamed_one() {
    let (j, w) = parse_journey(&lines("Tea: 4"));
    assert!(w.is_empty());
    assert_eq!(j.sections.len(), 1);
    assert_eq!(j.sections[0].name, "");
    assert!(j.sections[0].tasks[0].actors.is_empty());
}

#[test]
fn branch_checkout_merge_flow() {
    let (g, warnings) = parse_git(&lines(
        "commit\n\
         commit id: \"v0.1\" tag: \"release\"\n\
         branch develop\n\
         commit\n\
         checkout main\n\
         merge develop tag: \"v1.0\"",
    ));
    assert!(warnings.is_empty());
    assert_eq!(g.branches, vec!["main", "develop"]);
    assert_eq!(g.ops.len(), 5);

    let GitOp::Commit { id, tag, .. } = &g.ops[1] else { panic!() };
    assert_eq!(id.as_deref(), Some("v0.1"));
    assert_eq!(tag.as_deref(), Some("release"));

    let GitOp::Commit { branch, .. } = &g.ops[3] else { panic!() };
    assert_eq!(*branch, 1);

    let GitOp::Merge { from_branch, into_branch, tag } = &g.ops[4] else { panic!() };
    assert_eq!((*from_branch, *into_branch), (1, 0));
    assert_eq!(tag.as_deref(), Some("v1.0"));
}

#[test]
fn git_unknown_branch_warns() {
    let (_, warnings) = parse_git(&lines("checkout nowhere\nmerge ghost\ncherry-pick id: \"x\"\nfrobnicate"));
    assert_eq!(warnings.len(), 3);
    assert_eq!(warnings[2].to_text(), "line 4: cannot parse gitGraph statement 'frobnicate'");
}

#[test]
fn parsed_dates_print_back_as_written() {
    for (date, label) in [
        ("2024-02-29", "02-29"),
        ("1999-12-31", "12-31"),
        ("2000-03-01", "03-01"),
        ("1900-02-28", "02-28"),
        ("1969-07-20", "07-20"),
        ("0001-01-01", "01-01"),
    ] {
        assert_eq!(format_date(parse_date(date).unwrap()), label, "{date}");
    }
}

#[test]
fn invalid_gantt_date_warns_instead_of_epoch_bar() {
    let (chart, warnings, fatal) = parse_gantt(&lines("section S\nBad :2026-13-45, 5d\nGood :2026-01-01, 3d"));
    assert!(!fatal);
    assert_eq!(warnings.len(), 1);
    assert_eq!(warnings[0].line(), 2);
    assert_eq!(warnings[0].to_text(), "line 2: cannot parse gantt task 'Bad :2026-13-45, 5d'");
    let tasks = &chart.sections[0].tasks;
    assert_eq!(tasks.len(), 1);
    assert_eq!(tasks[0].label, "Good");
}

#[test]
fn zero_padded_dates_come_back_on_the_axis() {
    for (y, m, d) in [(1, 1, 1), (987, 3, 5), (2024, 2, 29), (1999, 12, 31), (9999, 12, 31)] {
        let text = format!("{y:04}-{m:02}-{d:02}");
        let days = parse_date(&text).unwrap();
        assert_eq!(format_date(days), format!("{m:02}-{d:02}"));
    }
}
