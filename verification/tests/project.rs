use cc_stats::project::{
    applies, apply_merge, decode_project_folder, expand_tilde, matches_lower, matches_project,
    parse_merges, HomePath, MergeRule,
};

fn rules(args: &[&str]) -> Vec<MergeRule> {
    parse_merges(&args.iter().map(|s| s.to_string()).collect::<Vec<String>>())
}

fn texts(v: &[&str]) -> Vec<String> {
    v.iter().map(|s| s.to_string()).collect()
}

#[test]
fn merge_rules_are_read() {
    let r = rules(&["myproject", "workspace/myproject=Project-A", " a = b = c ", "=x", "y="]);
    let told: Vec<(&str, &str)> =
        r.iter().map(|m| (m.pattern.as_str(), m.label.as_str())).collect();
    assert_eq!(
        told,
        vec![
            ("myproject", "myproject"),
            ("workspace/myproject", "Project-A"),
            ("a", "b = c"),
            ("", "x"),
            ("y", ""),
        ]
    );
    assert!(rules(&[]).is_empty());
}

#[test]
fn the_first_rule_that_applies_decides() {
    let r = rules(&["nothing=N", "work=A", "workspace=B"]);
    assert_eq!(apply_merge("/home/me/WorkSpace/x", &r), "A");
    assert_eq!(apply_merge("/home/me/other", &r), "/home/me/other");
    // the pattern's case does not matter either, and the label keeps its own
    assert_eq!(apply_merge("/x/ÄRGER", &rules(&["Ärger=Label"])), "Label");
    assert!(applies("abc", "B", "b"));
    assert!(!applies("abc", "", ""));
}

#[test]
fn empty_patterns_merge_nothing() {
    assert_eq!(apply_merge("/a/b", &rules(&["=all", "  "])), "/a/b");
    assert_eq!(apply_merge("/a/b", &rules(&[])), "/a/b");
}

#[test]
fn folders_give_paths_back_without_hyphens() {
    let path = "/home/me/code";
    assert_eq!(decode_project_folder(&path.replace('/', "-")), path);
    assert_eq!(decode_project_folder("-home-me-my-app"), "/home/me/my/app");
    assert_eq!(decode_project_folder(""), "");
    assert_eq!(decode_project_folder("plain"), "plain");
}

#[test]
fn filters_look_at_name_and_directory() {
    assert!(matches_project("A", "/x", &texts(&[])));
    assert!(matches_project("Project-A", "/home/x", &texts(&["zzz", "PROJECT"])));
    assert!(matches_project("Label", "/home/Code", &texts(&["code"])));
    assert!(!matches_project("Label", "/home/Code", &texts(&["rust"])));
    assert!(matches_project("Label", "/home", &texts(&[""])));
    assert!(!matches_lower("label", "/home", &texts(&["Label"])));
    assert!(matches_lower("label", "/home", &texts(&["lab"])));
}

#[test]
fn a_tilde_stands_for_home() {
    match expand_tilde("~/.logs/projects", true) {
        HomePath::UnderHome(rest) => assert_eq!(rest, ".logs/projects"),
        HomePath::Plain(_) => panic!("home is known"),
    }
    match expand_tilde("~/x", false) {
        HomePath::Plain(p) => assert_eq!(p, "~/x"),
        HomePath::UnderHome(_) => panic!("home is not known"),
    }
    match expand_tilde("/a/~/b", true) {
        HomePath::Plain(p) => assert_eq!(p, "/a/~/b"),
        HomePath::UnderHome(_) => panic!("no tilde in front"),
    }
}
