use cc_stats::event::{parse_event, parse_event_at};
use cc_stats::json::Json;
use cc_stats::log::{collect_session, process_jsonl, title_of, SessionMeta};
use cc_stats::time::Instant;
use cc_stats::tokens::Tokens;

fn lines(v: &[&str]) -> Vec<String> {
    v.iter().map(|s| s.to_string()).collect()
}

fn text(s: &str) -> Json {
    Json::Text(s.to_string())
}

fn object(members: Vec<(&str, Json)>) -> Json {
    Json::Object(members.into_iter().map(|(k, v)| (k.to_string(), v)).collect())
}

fn at(secs: i64) -> Instant {
    Instant::new(secs, 0).unwrap()
}

const ASSISTANT: &str = r#"{"timestamp":"2025-03-01T12:00:05.250Z","type":"assistant","cwd":"/home/me/app","gitBranch":"main","attributionSkill":"review","attributionPlugin":"tools","message":{"model":"vendor-opus-4","stop_reason":"tool_use","content":[{"type":"thinking"},{"type":"text","text":"hi"},{"type":"tool_use","name":"mcp__github__search"},{"type":"tool_use","name":"Bash"},{"type":"tool_use"},{"name":"no type"},7],"usage":{"input_tokens":10,"output_tokens":20,"cache_read_input_tokens":30,"cache_creation_input_tokens":99,"cache_creation":{"ephemeral_5m_input_tokens":4,"ephemeral_1h_input_tokens":5},"iterations":[1,2,3]}}}"#;

#[test]
fn an_assistant_turn_is_read() {
    let (meta, events) = process_jsonl(&lines(&[ASSISTANT]));
    assert_eq!(meta.cwd, "/home/me/app");
    assert_eq!(events.len(), 1);
    let e = &events[0];
    assert_eq!(e.at, Instant::new(1740830405, 250_000_000).unwrap());
    assert_eq!(e.model.as_deref(), Some("vendor-opus-4"));
    assert_eq!(e.skill.as_deref(), Some("review"));
    assert_eq!(e.plugin.as_deref(), Some("tools"));
    assert_eq!(e.git_branch.as_deref(), Some("main"));
    assert_eq!(e.stop_reason.as_deref(), Some("tool_use"));
    assert_eq!(e.content_types, vec!["thinking", "text", "tool_use", "tool_use", "tool_use"]);
    assert_eq!(e.tools, vec!["mcp__github__search", "Bash"]);
    assert_eq!(
        e.tokens,
        Tokens {
            input: 10,
            output: 20,
            cache_create_5m: 4,
            cache_create_1h: 5,
            cache_read: 30,
            iterations: 3,
        }
    );
}

#[test]
fn cache_writes_that_are_not_split_are_short_lived() {
    let line = r#"{"timestamp":"2025-03-01T12:00:00Z","type":"assistant","message":{"usage":{"cache_creation_input_tokens":7,"input_tokens":-1,"output_tokens":1.5,"iterations":4}}}"#;
    let (_, events) = process_jsonl(&lines(&[line]));
    let t = events[0].tokens;
    assert_eq!((t.cache_create_5m, t.cache_create_1h), (7, 0));
    assert_eq!((t.input, t.output), (0, 0));
    assert_eq!(t.iterations, 1);
    assert_eq!(events[0].model, None);
}

#[test]
fn only_assistants_have_models_and_tokens() {
    let line = ASSISTANT.replace("\"assistant\"", "\"user\"");
    let (_, events) = process_jsonl(&vec![line]);
    let e = &events[0];
    assert_eq!(e.model, None);
    assert_eq!(e.stop_reason, None);
    assert!(e.content_types.is_empty() && e.tools.is_empty());
    assert_eq!(e.tokens, Tokens::default());
    assert_eq!(e.skill.as_deref(), Some("review"));
}

#[test]
fn records_without_time_or_type_are_no_events() {
    let (_, events) = process_jsonl(&lines(&[
        r#"{"type":"user"}"#,
        r#"{"timestamp":"yesterday","type":"user"}"#,
        r#"{"timestamp":17,"type":"user"}"#,
        r#"{"timestamp":"2025-03-01T12:00:00Z"}"#,
        r#"{"timestamp":"2025-03-01T12:00:00Z","type":null}"#,
        r#"[1,2]"#,
        r#""text""#,
        "  ",
        "",
        "{not json",
        r#"{"timestamp":"2025-03-01T12:00:00Z","type":"user"} trailing"#,
    ]));
    assert!(events.is_empty());
}

#[test]
fn events_come_by_time_and_keep_their_order() {
    let (_, events) = process_jsonl(&lines(&[
        r#"{"timestamp":"2025-03-01T12:00:09Z","type":"a","gitBranch":"1"}"#,
        r#"{"timestamp":"2025-03-01T12:00:01Z","type":"a","gitBranch":"2"}"#,
        r#"{"timestamp":"2025-03-01T14:00:09+02:00","type":"a","gitBranch":"3"}"#,
        r#"{"timestamp":"2025-03-01T12:00:05Z","type":"a","gitBranch":"4"}"#,
    ]));
    let order: Vec<&str> = events.iter().map(|e| e.git_branch.as_deref().unwrap()).collect();
    assert_eq!(order, vec!["2", "4", "1", "3"]);
    for w in events.windows(2) {
        assert!(w[0].at.not_after(&w[1].at));
    }
}

#[test]
fn the_first_directory_and_the_last_titles_count() {
    let (meta, events) = process_jsonl(&lines(&[
        r#"{"type":"ai-title","aiTitle":"one"}"#,
        r#"{"cwd":5}"#,
        r#"{"cwd":"/first"}"#,
        r#"{"cwd":"/second","type":"ai-title","aiTitle":"two"}"#,
        r#"{"type":"ai-title","aiTitle":3}"#,
        r#"{"type":"custom-title","aiTitle":"no","customTitle":"mine"}"#,
        r#"{"type":"other","aiTitle":"no","customTitle":"no"}"#,
    ]));
    assert_eq!(meta.cwd, "/first");
    assert_eq!(meta.ai_title.as_deref(), Some("two"));
    assert_eq!(meta.custom_title.as_deref(), Some("mine"));
    assert!(events.is_empty());
    let (none, _) = process_jsonl(&lines(&["{}"]));
    assert_eq!(none.cwd, "");
    assert_eq!(none.ai_title, None);
}

#[test]
fn a_custom_title_comes_before_the_other() {
    let meta = |a: Option<&str>, c: Option<&str>| SessionMeta {
        cwd: String::new(),
        ai_title: a.map(String::from),
        custom_title: c.map(String::from),
    };
    assert_eq!(title_of(&meta(Some("a"), Some("c"))).as_deref(), Some("c"));
    assert_eq!(title_of(&meta(Some("a"), None)).as_deref(), Some("a"));
    assert_eq!(title_of(&meta(None, Some(""))).as_deref(), Some(""));
    assert_eq!(title_of(&meta(None, None)), None);
}

#[test]
fn values_are_read_as_they_are() {
    let v = object(vec![
        ("timestamp", text("1970-01-01T00:00:07Z")),
        ("type", text("assistant")),
        (
            "message",
            object(vec![
                ("content", text("plain")),
                ("usage", object(vec![("input_tokens", Json::Number(Some(8)))])),
            ]),
        ),
    ]);
    let e = parse_event(&v).unwrap();
    assert_eq!(e.at, at(7));
    assert_eq!(e.tokens, Tokens { input: 8, iterations: 1, ..Tokens::default() });
    assert!(e.content_types.is_empty());
    // at a time that is given, the record's own is not looked at
    assert_eq!(parse_event_at(&v, at(99)).unwrap().at, at(99));
    assert!(parse_event_at(&object(vec![]), at(0)).is_none());
    assert!(parse_event(&Json::List(vec![])).is_none());
    let (meta, events) = collect_session(&vec![v, object(vec![("cwd", text("/x"))])]);
    assert_eq!((meta.cwd.as_str(), events.len()), ("/x", 1));
}

#[test]
fn members_and_kinds_of_values() {
    let v = object(vec![
        ("a", Json::Number(Some(3))),
        ("b", Json::Number(None)),
        ("c", Json::List(vec![Json::Null, Json::Bool(true)])),
        ("d", text("t")),
    ]);
    assert_eq!(v.u64_at("a"), 3);
    assert_eq!(v.u64_at("b"), 0);
    assert_eq!(v.u64_at("z"), 0);
    assert_eq!(v.string_at("d").as_deref(), Some("t"));
    assert_eq!(v.string_at("a"), None);
    assert_eq!(v.get("c").unwrap().as_array().unwrap().len(), 2);
    assert!(v.get("d").unwrap().as_array().is_none());
    assert!(text("x").get("a").is_none());
    assert_eq!(text("x").as_str(), Some("x"));
    assert_eq!(Json::Bool(true).as_u64(), None);
}
