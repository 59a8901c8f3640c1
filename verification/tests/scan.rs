use cc_stats::event::Event;
use cc_stats::log::{process_jsonl, SessionMeta};
use cc_stats::names::NameMap;
use cc_stats::project::parse_merges;
use cc_stats::scan::{
    judge, mark_first, mark_last, threshold_of, Fate, Folder, Scan, SessionLog, Settings,
};
use cc_stats::session::{server_of, tally, tally_cycle, tally_spans, usage_of, Axis, Cycle};
use cc_stats::tables::{try_total, Tables};
use cc_stats::time::{parse_date, Instant, TzOffset};
use cc_stats::tokens::Tokens;
use cc_stats::union::compute_union;
use cc_stats::usage::Usage;

fn utc() -> TzOffset {
    TzOffset::new(0).unwrap()
}

fn at(secs: i64) -> Instant {
    Instant::new(secs, 0).unwrap()
}

fn settings(merge: &[&str], filters: &[&str]) -> Settings {
    Settings {
        threshold: threshold_of(15),
        tz: utc(),
        from: None,
        to: None,
        merges: parse_merges(&merge.iter().map(|s| s.to_string()).collect::<Vec<String>>()),
        filters: filters.iter().map(|s| s.to_string()).collect(),
    }
}

fn log(id: &str, lines: &[String]) -> SessionLog {
    let (meta, events) = process_jsonl(&lines.to_vec());
    SessionLog { id: id.to_string(), file: format!("/logs/{}.jsonl", id), meta, events }
}

fn user(time: &str, cwd: &str) -> String {
    format!(r#"{{"timestamp":"{}","type":"user","cwd":"{}","gitBranch":"main"}}"#, time, cwd)
}

fn assistant(time: &str, model: &str, input: u64) -> String {
    format!(
        r#"{{"timestamp":"{}","type":"assistant","gitBranch":"dev","attributionSkill":"s","message":{{"model":"{}","stop_reason":"end_turn","content":[{{"type":"tool_use","name":"mcp__git__log"}},{{"type":"text"}}],"usage":{{"input_tokens":{}}}}}}}"#,
        time, model, input
    )
}

fn names(m: &NameMap<Usage>) -> Vec<String> {
    (0..m.len()).map(|i| m.name_at(i).to_string()).collect()
}

fn sample() -> SessionLog {
    log(
        "s1",
        &[
            user("2025-03-01T23:50:00Z", "/home/me/app"),
            assistant("2025-03-01T23:55:00Z", "opus", 100),
            assistant("2025-03-02T00:05:00Z", "haiku", 50),
            // a pause of 16 minutes does not count
            user("2025-03-02T00:21:00Z", "/home/me/app"),
            user("2025-03-02T00:21:30Z", "/home/me/app"),
        ],
    )
}

#[test]
fn a_threshold_is_given_in_minutes() {
    assert_eq!(threshold_of(15), 900);
    assert_eq!(threshold_of(0), 0);
    assert_eq!(threshold_of(307445734561825860), 18446744073709551600);
}

#[test]
fn servers_are_told_by_tool_names() {
    assert_eq!(server_of("mcp__github__search").as_deref(), Some("github"));
    assert_eq!(server_of("mcp__github__a__b").as_deref(), Some("github"));
    assert_eq!(server_of("mcp__solo").as_deref(), Some("solo"));
    assert_eq!(server_of("mcp____x"), None);
    assert_eq!(server_of("mcp__"), None);
    assert_eq!(server_of("Bash"), None);
    assert_eq!(server_of("xmcp__a__b"), None);
    // a name that ends in the mark's character gives that to the mark
    assert_eq!(server_of("mcp__a___b").as_deref(), Some("a"));
}

#[test]
fn an_event_amounts_to_a_message_and_its_tokens() {
    let s = sample();
    let u = usage_of(&s.events[1]);
    assert_eq!((u.messages, u.tool_uses, u.blocks, u.sessions), (1, 1, 2, 0));
    assert_eq!(u.cost, 100 * 1500);
    assert_eq!(usage_of(&s.events[0]).cost, 0);
}

#[test]
fn activity_is_what_is_within_the_threshold() {
    let s = sample();
    let total = try_total(&s.events, 900).unwrap();
    assert_eq!(total.active_sec, 300 + 600 + 30);
    assert_eq!(total.total_sec, 31 * 60 + 30);
    assert_eq!((total.sessions, total.messages), (1, 5));
    assert_eq!(total.cost, 100 * 1500 + 50 * 100);
    // the threshold itself still counts, and more counts with a longer one
    assert_eq!(try_total(&s.events, 960).unwrap().active_sec, 1890);
    assert_eq!(try_total(&s.events, 959).unwrap().active_sec, 930);
    assert_eq!(try_total(&s.events, 0).unwrap().active_sec, 0);
    assert!(total.active_sec <= total.total_sec);
}

#[test]
fn amounts_are_grouped_along_an_axis() {
    let s = sample();
    let days = tally(Axis::Day, &s.events, &utc(), 900);
    assert_eq!(names(&days), vec!["2025-03-01", "2025-03-02"]);
    let first = days.get("2025-03-01").unwrap();
    // the gap over midnight is on the day on which it starts
    assert_eq!((first.active_sec, first.messages, first.sessions), (900, 2, 1));
    let second = days.get("2025-03-02").unwrap();
    assert_eq!((second.active_sec, second.messages, second.sessions), (30, 3, 0));
    let models = tally(Axis::Model, &s.events, &utc(), 900);
    assert_eq!(names(&models), vec!["haiku", "opus"]);
    assert_eq!(models.get("opus").unwrap().tokens.input, 100);
    let branches = tally(Axis::Branch, &s.events, &utc(), 900);
    assert_eq!(branches.get("main").unwrap().active_sec, 330);
    assert_eq!(branches.get("dev").unwrap().active_sec, 600);
    assert_eq!(branches.get("dev").unwrap().messages, 2);
    let tools = tally(Axis::Tool, &s.events, &utc(), 900);
    assert_eq!(tools.get("mcp__git__log").unwrap().tool_uses, 2);
    let servers = tally(Axis::Server, &s.events, &utc(), 900);
    assert_eq!(servers.get("git").unwrap().tool_uses, 2);
    let contents = tally(Axis::Content, &s.events, &utc(), 900);
    assert_eq!(contents.get("text").unwrap().blocks, 2);
    let stops = tally(Axis::StopReason, &s.events, &utc(), 900);
    assert_eq!(stops.get("end_turn").unwrap().messages, 2);
    let skills = tally(Axis::Skill, &s.events, &utc(), 900);
    assert_eq!(skills.get("s").unwrap().messages, 2);
    assert_eq!(tally(Axis::Plugin, &s.events, &utc(), 900).len(), 0);
}

#[test]
fn amounts_are_grouped_along_a_cycle() {
    let s = sample();
    let hours = tally_cycle(Cycle::Hour, &s.events, &utc(), 900);
    assert_eq!(hours.len(), 24);
    assert_eq!((hours[23].active_sec, hours[23].messages), (900, 2));
    assert_eq!((hours[0].active_sec, hours[0].messages), (30, 3));
    let days = tally_cycle(Cycle::Weekday, &s.events, &utc(), 900);
    assert_eq!(days.len(), 7);
    // a Saturday and a Sunday
    assert_eq!((days[5].active_sec, days[6].active_sec), (900, 30));
    let spans = tally_spans(&s.events, &utc(), 900);
    assert_eq!(spans.get("2025-03-01").unwrap().len(), 2);
    assert_eq!(spans.get("2025-03-02").unwrap().len(), 1);
}

#[test]
fn tables_of_a_session_are_balanced() {
    let s = sample();
    let t = Tables::of_session(&s.events, &utc(), 900);
    let days = tally(Axis::Day, &s.events, &utc(), 900);
    let sum: u64 = (0..days.len()).map(|i| days.value_at(i).active_sec).sum();
    assert_eq!(sum, t.total.active_sec);
    assert_eq!(t.hours.iter().map(|u| u.active_sec).sum::<u64>(), t.total.active_sec);
    assert_eq!(t.weekdays.iter().map(|u| u.messages).sum::<u64>(), t.total.messages);
    // a session counts once for each branch that it touches
    assert_eq!(t.branches.get("main").unwrap().sessions, 1);
    assert_eq!(t.branches.get("dev").unwrap().sessions, 1);
}

#[test]
fn joined_tables_hold_both() {
    let s = sample();
    let mut t = Tables::of_session(&s.events, &utc(), 900);
    let o = Tables::of_session(&s.events, &utc(), 900);
    t.join(&o);
    assert_eq!(t.total.active_sec, 2 * 930);
    assert_eq!(t.days.get("2025-03-01").unwrap().sessions, 2);
    assert_eq!(t.spans.get("2025-03-01").unwrap().len(), 4);
    assert_eq!(t.hours[23].messages, 4);
    let mut empty = Tables::new();
    empty.join(&o);
    assert_eq!(empty.total, o.total);
    assert_eq!(names(&empty.models), names(&o.models));
}

#[test]
fn a_folder_takes_its_name_from_the_first_directory() {
    let rules = parse_merges(&vec!["special=Label".to_string()]);
    let mut f = Folder::new("-home-me-my-app", &rules);
    assert_eq!((f.name.as_str(), f.cwd.as_deref()), ("/home/me/my/app", None));
    f.learn("", &rules);
    assert_eq!(f.cwd, None);
    f.learn("/home/me/special-app", &rules);
    assert_eq!((f.name.as_str(), f.cwd.as_deref()), ("Label", Some("/home/me/special-app")));
    f.learn("/elsewhere", &rules);
    assert_eq!((f.name.as_str(), f.cwd.as_deref()), ("Label", Some("/home/me/special-app")));
    assert_eq!(Folder::new("-x-SPECIAL", &rules).name, "Label");
}

#[test]
fn sessions_count_or_not() {
    let s = sample();
    let f = Folder { name: "/home/me/app".to_string(), cwd: None };
    assert_eq!(judge(&s, &f, &settings(&[], &[])), Fate::Counted);
    assert_eq!(judge(&s, &f, &settings(&[], &["APP"])), Fate::Counted);
    assert_eq!(judge(&s, &f, &settings(&[], &["other"])), Fate::OtherProject);
    let mut late = settings(&[], &["other"]);
    late.from = parse_date("2025-03-02");
    assert_eq!(judge(&s, &f, &late), Fate::OutsideDates);
    let mut last = settings(&[], &[]);
    last.to = parse_date("2025-03-01");
    assert_eq!(judge(&s, &f, &last), Fate::Counted);
    assert_eq!(judge(&log("e", &[]), &f, &last), Fate::Empty);
}

#[test]
fn a_scan_adds_up() {
    let set = settings(&[], &[]);
    let mut scan = Scan::new();
    let mut a = Folder::new("-home-me-app", &set.merges);
    let mut b = Folder::new("-other", &set.merges);
    assert_eq!(scan.try_take_in(&mut a, &log("e", &[]), &set), Some(Fate::Empty));
    assert_eq!(a.cwd, None);
    assert_eq!(scan.try_take_in(&mut a, &sample(), &set), Some(Fate::Counted));
    let second = log("s2", &[user("2025-03-01T10:00:00Z", ""), user("2025-03-01T10:01:00Z", "")]);
    assert_eq!(scan.try_take_in(&mut b, &second, &set), Some(Fate::Counted));
    assert_eq!(scan.all.total.sessions, 2);
    assert_eq!(scan.all.total.active_sec, 930 + 60);
    assert_eq!(scan.earliest, Some(at(1740823200)));
    assert_eq!(scan.latest, Some(at(1740874890)));
    assert_eq!(scan.projects.len(), 2);
    let p = scan.projects.get("/home/me/app").unwrap();
    assert_eq!(p.cwd.as_deref(), Some("/home/me/app"));
    assert_eq!(p.first.as_deref(), Some("2025-03-01T23:50:00+00:00"));
    assert_eq!(p.last.as_deref(), Some("2025-03-02T00:21:30+00:00"));
    let q = scan.projects.get("/other").unwrap();
    assert_eq!(q.cwd, None);
    assert_eq!(p.tables.total.active_sec + q.tables.total.active_sec, 990);
    let on = |t: &Tables| t.days.get("2025-03-01").unwrap().active_sec;
    assert_eq!(on(&p.tables) + on(&q.tables), on(&scan.all));
    let told: u64 = scan.sessions.iter().map(|s| s.active_sec).sum();
    assert_eq!(told, scan.all.total.active_sec);
    let s = &scan.sessions[0];
    assert_eq!(s.project, "/home/me/app");
    assert_eq!((s.session_id.as_str(), s.file.as_str()), ("s1", "/logs/s1.jsonl"));
    assert_eq!(s.start, "2025-03-01T23:50:00+00:00");
    assert_eq!(s.end, "2025-03-02T00:21:30+00:00");
    assert_eq!(s.models, vec!["haiku", "opus"]);
    assert_eq!((s.messages, s.total_sec, s.tokens.input), (5, 1890, 150));
}

#[test]
fn a_session_that_does_not_count_leaves_the_scan_as_it_was() {
    let set = settings(&[], &["nothing"]);
    let mut scan = Scan::new();
    let mut f = Folder::new("-home-me-x", &set.merges);
    assert_eq!(scan.try_take_in(&mut f, &sample(), &set), Some(Fate::OtherProject));
    assert_eq!(scan.sessions.len(), 0);
    assert_eq!(scan.all.total.messages, 0);
    // its working directory is taken note of all the same
    assert_eq!(f.name, "/home/me/app");
}

#[test]
fn a_session_that_the_sums_cannot_hold_is_told() {
    let set = settings(&[], &[]);
    let mut scan = Scan::new();
    let mut f = Folder::new("x", &set.merges);
    let big = log("b", &[assistant("2025-03-01T10:00:00Z", "m", u64::MAX)]);
    let one = log("o", &[assistant("2025-03-01T10:00:00Z", "m", 1)]);
    let twice = log(
        "t",
        &[
            assistant("2025-03-01T10:00:00Z", "m", u64::MAX),
            assistant("2025-03-01T10:00:00Z", "m", 1),
        ],
    );
    assert!(try_total(&twice.events, 900).is_none());
    assert_eq!(scan.try_take_in(&mut f, &twice, &set), None);
    assert_eq!(scan.try_take_in(&mut f, &big, &set), Some(Fate::Counted));
    assert!(!scan.has_room(&one, &set));
    assert_eq!(scan.try_take_in(&mut f, &one, &set), None);
    assert_eq!(scan.sessions.len(), 1);
    assert_eq!(scan.all.total.tokens.input, u64::MAX);
}

#[test]
fn marks_keep_the_first_start_and_the_last_end() {
    let now = at(1_800_000_000);
    let none = None;
    let a = mark_first(&none, &at(100), &now);
    assert_eq!(a.as_deref(), Some("1970-01-01T00:01:40+00:00"));
    assert_eq!(mark_first(&a, &at(100), &now), a);
    assert_eq!(mark_first(&a, &at(101), &now), a);
    assert_eq!(mark_first(&a, &at(99), &now).as_deref(), Some("1970-01-01T00:01:39+00:00"));
    let z = mark_last(&none, &at(100));
    assert_eq!(mark_last(&z, &at(99)), z);
    assert_eq!(mark_last(&z, &at(101)).as_deref(), Some("1970-01-01T00:01:41+00:00"));
    // a mark that cannot be read stands for the present, or for 1970
    let odd = Some("?".to_string());
    assert_eq!(mark_first(&odd, &at(1_800_000_000), &now), odd);
    assert!(mark_first(&odd, &at(1_799_999_999), &now) != odd);
    assert_eq!(mark_last(&odd, &at(0)), odd);
    assert!(mark_last(&odd, &at(1)) != odd);
}

#[test]
fn amounts_are_added_where_they_fit() {
    let mut a = Usage { messages: u64::MAX - 1, ..Usage::zero() };
    let one = Usage { messages: 1, tokens: Tokens { input: 2, ..Tokens::default() }, ..Usage::zero() };
    a.add(&one);
    assert_eq!((a.messages, a.tokens.input), (u64::MAX, 2));
    assert!(a.try_add(&one).is_none());
    assert_eq!(one.try_add(&one).unwrap().messages, 2);
}

#[test]
fn a_title_comes_with_the_session() {
    let set = settings(&[], &[]);
    let mut scan = Scan::new();
    let mut f = Folder::new("x", &set.merges);
    let mut s = sample();
    s.meta = SessionMeta {
        cwd: String::new(),
        ai_title: Some("ai".to_string()),
        custom_title: None,
    };
    let events: &Vec<Event> = &s.events;
    assert_eq!(events.len(), 5);
    assert_eq!(scan.take_in(&mut f, &s, &set, &at(0)), Fate::Counted);
    assert_eq!(scan.sessions[0].title.as_deref(), Some("ai"));
    assert_eq!(scan.sessions[0].project, "x");
}

#[test]
fn no_axis_holds_more_than_the_session() {
    let s = sample();
    let total = try_total(&s.events, 900).unwrap();
    for axis in [
        Axis::Day,
        Axis::Model,
        Axis::Skill,
        Axis::Plugin,
        Axis::Branch,
        Axis::StopReason,
        Axis::Content,
        Axis::Tool,
        Axis::Server,
    ] {
        let t = tally(axis, &s.events, &utc(), 900);
        let sum = |f: fn(&Usage) -> u64| (0..t.len()).map(|i| f(t.value_at(i))).sum::<u64>();
        assert!(sum(|u| u.active_sec) <= total.active_sec);
        assert!(sum(|u| u.messages) <= total.messages);
        assert!(sum(|u| u.tool_uses) <= total.tool_uses);
        assert!(sum(|u| u.blocks) <= total.blocks);
    }
    for cycle in [Cycle::Hour, Cycle::Weekday] {
        let row = tally_cycle(cycle, &s.events, &utc(), 900);
        assert_eq!(row.iter().map(|u| u.active_sec).sum::<u64>(), total.active_sec);
    }
}

#[test]
fn spans_of_activity_run_forward() {
    let spans = tally_spans(&sample().events, &utc(), 900);
    for i in 0..spans.len() {
        for s in spans.value_at(i) {
            assert!(s.start.not_after(&s.end));
        }
    }
}

#[test]
fn sessions_count_in_any_order() {
    let set = settings(&[], &[]);
    let second = log(
        "s2",
        &[
            user("2025-03-01T23:52:00Z", "/home/me/app"),
            assistant("2025-03-01T23:58:00Z", "sonnet", 7),
        ],
    );
    let run = |first: &SessionLog, last: &SessionLog| {
        let mut scan = Scan::new();
        let mut f = Folder::new("x", &set.merges);
        assert_eq!(scan.try_take_in(&mut f, first, &set), Some(Fate::Counted));
        assert_eq!(scan.try_take_in(&mut f, last, &set), Some(Fate::Counted));
        scan
    };
    let a = run(&sample(), &second);
    let b = run(&second, &sample());
    assert_eq!(a.all.total, b.all.total);
    assert_eq!((a.earliest, a.latest), (b.earliest, b.latest));
    assert_eq!(names(&a.all.models), names(&b.all.models));
    for i in 0..a.all.days.len() {
        assert_eq!(a.all.days.value_at(i), b.all.days.value_at(i));
    }
    let covered = |s: &Scan| compute_union(s.all.spans.get("2025-03-01").unwrap());
    assert_eq!(covered(&a), 900);
    assert_eq!(covered(&b), 900);
    let p = |s: &Scan| s.projects.get("/home/me/app").unwrap().tables.total;
    assert_eq!(p(&a), p(&b));
}

#[test]
fn a_mark_that_cannot_be_read_is_held_against_the_present() {
    let set = settings(&[], &[]);
    let mut scan = Scan::new();
    let mut f = Folder::new("x", &set.merges);
    let mut first_after = |time: &str| {
        let s = log("s", &[user(time, "/home/me/app"), user(time, "/home/me/app")]);
        assert_eq!(scan.try_take_in(&mut f, &s, &set), Some(Fate::Counted));
        scan.projects.get("/home/me/app").unwrap().first.clone().unwrap()
    };
    // in UTC the year has five digits, which RFC 3339 cannot read
    let odd = "+10000-01-01T00:30:00+00:00";
    assert_eq!(first_after("9999-12-31T23:30:00-01:00"), odd);
    assert_eq!(first_after("9999-06-01T00:00:00Z"), odd);
    assert_eq!(first_after("2000-01-01T00:00:00Z"), "2000-01-01T00:00:00+00:00");
    assert_eq!(first_after("9999-12-31T23:30:00-01:00"), "2000-01-01T00:00:00+00:00");
}
