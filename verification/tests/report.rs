use cc_stats::anonymize::{anonymize_report, universal_branch};
use cc_stats::log::process_jsonl;
use cc_stats::project::parse_merges;
use cc_stats::render::{
    daily_csv, fill_template, fmt_hms, outputs_for, print_summary, projects_csv, sessions_csv,
    shown_rows, wanted_outputs, Figures, Outputs,
};
use cc_stats::report::{build_report, weekday_name, NamedCount, Ratio, Report, Request};
use cc_stats::scan::{Fate, Folder, Scan, SessionLog, Settings};
use cc_stats::time::{Instant, TzOffset};

fn utc() -> TzOffset {
    TzOffset::new(0).unwrap()
}

fn event(time: &str, branch: &str, model: &str, skill: &str, tool: &str, input: u64) -> String {
    format!(
        r#"{{"timestamp":"2025-03-{}Z","type":"assistant","gitBranch":"{}","attributionSkill":"{}","attributionPlugin":"p","message":{{"model":"{}","stop_reason":"end_turn","content":[{{"type":"tool_use","name":"{}"}}],"usage":{{"input_tokens":{},"cache_read_input_tokens":100}}}}}}"#,
        time, branch, skill, model, tool, input
    )
}

fn log(id: &str, lines: Vec<String>) -> SessionLog {
    let (meta, events) = process_jsonl(&lines);
    SessionLog { id: id.to_string(), file: format!("/logs/{}.jsonl", id), meta, events }
}

fn titled(title: &str, mut lines: Vec<String>) -> Vec<String> {
    lines.push(format!(r#"{{"type":"ai-title","aiTitle":"{}"}}"#, title));
    lines
}

fn scanned() -> Scan {
    let set = Settings {
        threshold: 900,
        tz: utc(),
        from: None,
        to: None,
        merges: parse_merges(&vec![]),
        filters: vec![],
    };
    let mut scan = Scan::new();
    let mut a = Folder::new("-a", &set.merges);
    let mut b = Folder::new("-b", &set.merges);
    let logs = vec![
        (
            true,
            log(
                "a1",
                titled(
                    "secret",
                    vec![
                        event("01T10:00:00", "main", "opus", "x", "Bash", 100),
                        event("01T10:10:00", "fix/me", "haiku", "y", "mcp__git__log", 100),
                    ],
                ),
            ),
        ),
        (
            false,
            log(
                "b1",
                vec![
                    event("01T10:05:00", "main", "haiku", "y", "Bash", 0),
                    event("01T10:15:00", "wip", "haiku", "y", "Bash", 0),
                    event("02T09:00:00", "", "haiku", "y", "Bash", 0),
                ],
            ),
        ),
        (true, log("a2", titled("more", vec![event("03T00:00:00", "fix/me", "opus", "x", "Edit", 0)]))),
    ];
    for (first, l) in &logs {
        let f = if *first { &mut a } else { &mut b };
        assert_eq!(scan.try_take_in(f, l, &set), Some(Fate::Counted));
    }
    scan
}

fn built() -> Report {
    let request = Request { gap_min: 15, window_days: 90, tz: utc() };
    build_report(scanned(), &request, &Instant::new(1741000000, 0).unwrap())
}

fn pairs(v: &[NamedCount]) -> Vec<(&str, u64)> {
    v.iter().map(|c| (c.name.as_str(), c.count)).collect()
}

#[test]
fn the_summary_sums_up() {
    let s = built().summary;
    assert_eq!(s.generated_at, "2025-03-03 11:06:40");
    assert_eq!(s.gap_threshold_min, 15);
    assert_eq!(s.tz_offset, "+00:00");
    assert_eq!(s.default_window_days, 90);
    assert_eq!(s.earliest.as_deref(), Some("2025-03-01"));
    assert_eq!(s.latest.as_deref(), Some("2025-03-03"));
    assert_eq!(s.span_sec, 38 * 3600);
    assert_eq!((s.projects, s.sessions, s.messages), (2, 3, 6));
    assert_eq!(s.active_sec, 1200);
    assert_eq!(s.active_sec_union, 900);
    assert_eq!(s.total_sec, 600 + 23 * 3600 - 300);
    assert_eq!(s.active_total, Ratio { over: 1200, under: 83100 });
    assert_eq!(s.active_per_day, Ratio { over: 28800, under: 136800 });
    assert_eq!(s.cache_hit, Ratio { over: 600, under: 800 });
    assert_eq!(s.calls_per_message, Ratio { over: 6, under: 6 });
    assert_eq!(s.cost, 100 * 1500 + 100 * 100 + 2 * 100 * 150 + 4 * 100 * 10);
}

#[test]
fn an_empty_scan_has_an_empty_report() {
    let request = Request { gap_min: 15, window_days: 0, tz: utc() };
    let r = build_report(Scan::new(), &request, &Instant::new(0, 0).unwrap());
    assert_eq!(r.summary.earliest, None);
    assert_eq!(r.summary.span_sec, 0);
    assert_eq!(r.summary.active_per_day.under, 0);
    assert_eq!(r.summary.active_total.under, 0);
    assert!(r.projects.is_empty() && r.sessions.is_empty() && r.daily.is_empty());
    assert_eq!((r.by_hour.len(), r.by_weekday.len()), (24, 7));
    assert_eq!((r.by_hour[23].hour, r.by_weekday[6].weekday), (23, 6));
}

#[test]
fn projects_come_by_activity_and_then_by_name() {
    let r = built();
    let told: Vec<(&str, u64, u128)> =
        r.projects.iter().map(|p| (p.name.as_str(), p.active_sec, p.active_sec_union)).collect();
    assert_eq!(told, vec![("/a", 600, 600), ("/b", 600, 600)]);
    let a = &r.projects[0];
    assert_eq!((a.sessions, a.messages, a.total_sec), (2, 3, 600));
    assert_eq!(a.first.as_deref(), Some("2025-03-01T10:00:00+00:00"));
    assert_eq!(a.last.as_deref(), Some("2025-03-03T00:00:00+00:00"));
    assert_eq!(a.by_hour.len(), 24);
    assert_eq!(a.by_hour[10], 600);
    assert_eq!(a.by_weekday, vec![0, 0, 0, 0, 0, 600, 0]);
    assert_eq!(pairs(&a.by_skill), vec![("x", 2), ("y", 1)]);
    assert_eq!(pairs(&a.by_tool), vec![("Bash", 1), ("Edit", 1), ("mcp__git__log", 1)]);
}

#[test]
fn sessions_come_by_activity_and_then_as_counted() {
    let r = built();
    let ids: Vec<&str> = r.sessions.iter().map(|s| s.session_id.as_str()).collect();
    assert_eq!(ids, vec!["a1", "b1", "a2"]);
    assert_eq!(r.sessions[0].title.as_deref(), Some("secret"));
    assert_eq!(r.sessions[1].title, None);
}

#[test]
fn a_day_is_shared_by_its_projects() {
    let r = built();
    let dates: Vec<&str> = r.daily.iter().map(|d| d.date.as_str()).collect();
    assert_eq!(dates, vec!["2025-03-01", "2025-03-02", "2025-03-03"]);
    let d = &r.daily[0];
    assert_eq!((d.active_sec, d.active_sec_union), (1200, 900));
    assert_eq!((d.sessions, d.messages), (2, 4));
    assert_eq!(pairs(&d.by_project), vec![("/a", 600), ("/b", 600)]);
    assert_eq!(pairs(&d.union_by_project), vec![("/a", 600), ("/b", 600)]);
    assert_eq!(d.by_project.iter().map(|c| c.count).sum::<u64>(), d.active_sec);
    // a day without activity is shared by none
    assert!(r.daily[1].by_project.is_empty());
    assert_eq!((r.daily[1].sessions, r.daily[1].messages), (0, 1));
    assert_eq!((r.daily[2].sessions, r.daily[2].active_sec_union), (1, 0));
}

#[test]
fn lists_come_by_rank() {
    let r = built();
    let models: Vec<(&str, u64)> =
        r.by_model.iter().map(|m| (m.name.as_str(), m.messages)).collect();
    assert_eq!(models, vec![("opus", 2), ("haiku", 4)]);
    assert_eq!(r.by_model[0].cost, 100 * 1500 + 200 * 150);
    let skills: Vec<(&str, u64)> =
        r.by_skill.iter().map(|m| (m.name.as_str(), m.messages)).collect();
    assert_eq!(skills, vec![("y", 4), ("x", 2)]);
    assert_eq!(r.by_plugin[0].messages, 6);
    assert_eq!(pairs(&r.by_tool), vec![("Bash", 4), ("Edit", 1), ("mcp__git__log", 1)]);
    assert_eq!(pairs(&r.by_mcp_server), vec![("git", 1)]);
    assert_eq!(pairs(&r.by_content_type), vec![("tool_use", 6)]);
    assert_eq!(pairs(&r.by_stop_reason), vec![("end_turn", 6)]);
    let branches: Vec<(&str, u64, u64, u64)> = r
        .by_branch
        .iter()
        .map(|b| (b.name.as_str(), b.active_sec, b.sessions, b.messages))
        .collect();
    assert_eq!(
        branches,
        vec![("main", 1200, 2, 2), ("", 0, 1, 1), ("fix/me", 0, 2, 2), ("wip", 0, 1, 1)]
    );
    assert_eq!((r.by_hour[10].messages, r.by_hour[10].active_sec), (4, 1200));
    assert_eq!((r.by_weekday[5].name, r.by_weekday[5].active_sec), ("Sat", 1200));
    assert_eq!((r.by_weekday[6].name, r.by_weekday[6].messages), ("Sun", 1));
}

#[test]
fn weekdays_have_names() {
    let all: Vec<&str> = (0..7).map(weekday_name).collect();
    assert_eq!(all, vec!["Mon", "Tue", "Wed", "Thu", "Fri", "Sat", "Sun"]);
}

#[test]
fn anonymizing_takes_out_what_identifies() {
    let mut r = built();
    r.projects[0].cwd = Some("/home/me".to_string());
    anonymize_report(&mut r);
    assert!(r.sessions.iter().all(|s| s.file.is_empty()));
    let titles: Vec<Option<&str>> = r.sessions.iter().map(|s| s.title.as_deref()).collect();
    assert_eq!(titles, vec![Some("Session 0001"), None, Some("Session 0002")]);
    assert!(r.projects.iter().all(|p| p.cwd.is_none()));
    let branches: Vec<&str> = r.by_branch.iter().map(|b| b.name.as_str()).collect();
    assert_eq!(branches, vec!["main", "", "branch-01", "branch-02"]);
    // all else stays
    assert_eq!(r.sessions[0].session_id, "a1");
    assert_eq!(r.projects[0].name, "/a");
    assert_eq!(r.by_branch[0].active_sec, 1200);
    assert_eq!(r.summary.sessions, 3);
}

#[test]
fn anonymizing_again_changes_nothing() {
    let mut r = built();
    anonymize_report(&mut r);
    let before: Vec<String> = r.by_branch.iter().map(|b| b.name.clone()).collect();
    let titles: Vec<Option<String>> = r.sessions.iter().map(|s| s.title.clone()).collect();
    anonymize_report(&mut r);
    assert_eq!(before, r.by_branch.iter().map(|b| b.name.clone()).collect::<Vec<String>>());
    assert_eq!(titles, r.sessions.iter().map(|s| s.title.clone()).collect::<Vec<_>>());
}

#[test]
fn universal_branches_are_few() {
    for name in ["main", "master", "develop", "HEAD", ""] {
        assert!(universal_branch(name));
    }
    for name in ["Main", "head", "dev", "main ", "branch-01"] {
        assert!(!universal_branch(name));
    }
}

#[test]
fn seconds_as_hours_minutes_seconds() {
    assert_eq!(fmt_hms(0), "   0h 00m 00s");
    assert_eq!(fmt_hms(3661), "   1h 01m 01s");
    assert_eq!(fmt_hms(86399), "  23h 59m 59s");
    assert_eq!(fmt_hms(36_000_000), "10000h 00m 00s");
    assert_eq!(fmt_hms(u64::MAX), "5124095576030431h 00m 15s");
}

fn costs(n: usize) -> Vec<String> {
    (0..n).map(|i| format!("{:.4}", i as f64 / 4.0)).collect()
}

#[test]
fn tables_are_written_line_by_line() {
    let r = built();
    assert_eq!(
        daily_csv(&r.daily, &costs(3)),
        "date,active_sec,messages,sessions,cost_usd,tokens_total\n\
         2025-03-01,1200,4,2,0.0000,600\n\
         2025-03-02,0,1,0,0.2500,100\n\
         2025-03-03,0,1,1,0.5000,100\n"
    );
    assert_eq!(
        projects_csv(&r.projects, &costs(2)),
        "project,active_sec,total_sec,sessions,messages,cost_usd,tokens_total\n\
         \"/a\",600,600,2,3,0.0000,500\n\
         \"/b\",600,82500,1,3,0.2500,300\n"
    );
    assert_eq!(
        sessions_csv(&r.sessions, &costs(3)),
        "project,session_id,start,end,active_sec,total_sec,messages,cost_usd,tokens_total\n\
         \"/a\",a1,2025-03-01T10:00:00+00:00,2025-03-01T10:10:00+00:00,600,600,2,0.0000,400\n\
         \"/b\",b1,2025-03-01T10:05:00+00:00,2025-03-02T09:00:00+00:00,600,82500,3,0.2500,300\n\
         \"/a\",a2,2025-03-03T00:00:00+00:00,2025-03-03T00:00:00+00:00,0,0,1,0.5000,100\n"
    );
}

#[test]
fn names_are_quoted_with_escapes() {
    let mut r = built();
    r.projects.truncate(1);
    r.projects[0].name = "a \"b\"\\\n\u{e9}".to_string();
    let text = projects_csv(&r.projects, &costs(1));
    assert!(text.contains("\"a \\\"b\\\"\\\\\\n\u{e9}\",600,"));
}

fn figures(r: &Report) -> Figures {
    Figures {
        span_days: "1.6".to_string(),
        active_hours: "0.3".to_string(),
        union_hours: "0.2".to_string(),
        total_hours: "23.1".to_string(),
        active_percent: "1.4".to_string(),
        active_per_day: "0.21".to_string(),
        calls_per_message: "1.00".to_string(),
        cache_percent: "75.0".to_string(),
        cost: "0.00".to_string(),
        project_costs: vec!["0.01".to_string(); shown_rows(r.projects.len())],
        model_costs: vec!["0.02".to_string(); r.by_model.len()],
    }
}

#[test]
fn the_summary_is_written() {
    let r = built();
    let rule = "=".repeat(78);
    let expected = format!(
        "\n{}\nLog Stats   gap=15m   generated 2025-03-03 11:06:40\n{}\n\
         Range     : 2025-03-01  →  2025-03-03   (1.6 days)\n\
         Projects/Sessions/Messages : 2 / 3 / 6\n\
         Active sum :    0h 20m 00s   (0.3 h)   per-session sum; parallel sessions double-counted\n\
         Active union:    0h 15m 00s   (0.2 h)   wall-clock union; real attention time\n\
         Total      :   23h 05m 00s   (23.1 h)\n\
         Active/Total: 1.4%\n\
         Avg active/day: 0.21 h\n\
         \n\
         Tokens     : in=200  out=0  cache_write=0+0  cache_read=600   total=800\n\
         Iterations : 6 model calls   (avg 1.00 per assistant turn)\n\
         TZ         : +00:00\n\
         Cache hit  : 75.0%   (cache_read / [input + cache_write + cache_read])\n\
         Cost (est.): $0.00 USD\n\
         \n\
         Top projects by active time:\n\
         \x20  1.    0h 10m 00s  /a  msgs=3  $0.01\n\
         \x20  2.    0h 10m 00s  /b  msgs=3  $0.01\n\
         \n\
         By model:\n\
         \x20 {:<24}  msgs={:>6}  $0.02\n\
         \x20 {:<24}  msgs={:>6}  $0.02\n\
         \n\
         Top skills:\n\
         \x20 {:<40}  msgs=4\n\
         \x20 {:<40}  msgs=2\n",
        rule, rule, "opus", 2, "haiku", 4, "y", "x"
    );
    assert_eq!(print_summary("Log Stats", &r, &figures(&r)), expected);
}

#[test]
fn an_empty_summary_has_no_models_and_no_skills() {
    let request = Request { gap_min: 5, window_days: 0, tz: utc() };
    let r = build_report(Scan::new(), &request, &Instant::new(0, 0).unwrap());
    let text = print_summary("Log Stats", &r, &figures(&r));
    assert!(text.contains("Range     : -  →  -   ("));
    assert!(text.ends_with("Top projects by active time:\n"));
}

#[test]
fn no_more_than_ten_rows_are_shown() {
    assert_eq!(shown_rows(0), 0);
    assert_eq!(shown_rows(9), 9);
    assert_eq!(shown_rows(10), 10);
    assert_eq!(shown_rows(11), 10);
}

#[test]
fn data_goes_where_the_page_has_a_mark() {
    assert_eq!(
        fill_template("<script>D = /*__CC_STATS_DATA__*/null;</script>", "{\"a\":1}"),
        "<script>D = {\"a\":1};</script>"
    );
    assert_eq!(fill_template("nothing", "x"), "nothing");
}

#[test]
fn formats_ask_for_files() {
    let all = Outputs { json: true, csv: true, html: true };
    let none = Outputs { json: false, csv: false, html: false };
    assert_eq!(wanted_outputs("all"), all);
    assert_eq!(wanted_outputs("ALL"), all);
    assert_eq!(wanted_outputs("Json"), Outputs { json: true, ..none });
    assert_eq!(wanted_outputs("csv"), Outputs { csv: true, ..none });
    assert_eq!(wanted_outputs("html"), Outputs { html: true, ..none });
    assert_eq!(wanted_outputs("pdf"), none);
    assert_eq!(outputs_for("ALL"), none);
}

#[test]
fn a_tool_counts_once_for_each_message_that_uses_it() {
    let tools = |names: &[&str]| {
        let blocks: Vec<String> =
            names.iter().map(|n| format!(r#"{{"type":"tool_use","name":"{}"}}"#, n)).collect();
        blocks.join(",")
    };
    let line = |time: &str, names: &[&str]| {
        format!(
            r#"{{"type":"assistant","timestamp":"2025-01-01T{}Z","message":{{"content":[{}]}}}}"#,
            time,
            tools(names)
        )
    };
    let report = |lines: Vec<String>| {
        let set = Settings {
            threshold: 900,
            tz: utc(),
            from: None,
            to: None,
            merges: parse_merges(&[]),
            filters: vec![],
        };
        let mut scan = Scan::new();
        let mut f = Folder::new("p", &set.merges);
        assert_eq!(scan.try_take_in(&mut f, &log("s", lines), &set), Some(Fate::Counted));
        let request = Request { gap_min: 15, window_days: 90, tz: utc() };
        build_report(scan, &request, &Instant::new(0, 0).unwrap())
    };
    let one = report(vec![line("10:00:00", &["Bash", "Bash"])]);
    assert_eq!(pairs(&one.by_tool), vec![("Bash", 1)]);
    assert_eq!(pairs(&one.projects[0].by_tool), vec![("Bash", 2)]);
    let more = report(vec![
        line("10:00:00", &["mcp__a__x", "Bash", "mcp__a__x", "mcp__a__y"]),
        line("10:00:01", &["mcp__a__x"]),
        line("10:00:02", &[]),
    ]);
    assert_eq!(pairs(&more.by_tool), vec![("mcp__a__x", 2), ("Bash", 1), ("mcp__a__y", 1)]);
    assert_eq!(
        pairs(&more.projects[0].by_tool),
        vec![("Bash", 1), ("mcp__a__x", 3), ("mcp__a__y", 1)]
    );
    assert_eq!(pairs(&more.by_mcp_server), vec![("a", 4)]);
    assert_eq!(pairs(&more.by_content_type), vec![("tool_use", 5)]);
}
