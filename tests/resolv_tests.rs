use resolv::guess::Turn;
use resolv::parser::{complete_rule, fetch_file, parse_rules, push_and_prepare};
use resolv::plan::{default_target, record_completion, resolve, resolve_first, Notice, PlanError};
use resolv::rule::{find_index, find_rule, Rule};
use resolv::store::{decimal_string, parse_number, StateStore};
use resolv::text::{chars_of, contains_char, split_lines, trimmed};

fn manifest(text: &str) -> Vec<Rule> {
    let lines = fetch_file("Resolvfile", Some(text)).unwrap();
    parse_rules(&lines)
}

fn names(rules: &[Rule], plan: &[usize]) -> Vec<String> {
    plan.iter()
        .map(|&i| rules[i].name.clone().unwrap_or_default())
        .collect()
}

fn no_times(rules: &[Rule]) -> Vec<Vec<u64>> {
    rules.iter().map(|r| vec![0; r.resources.len()]).collect()
}

#[test]
fn parses_blocks_names_tokens_and_scripts() {
    let rules = manifest("# a comment\nall: lib data.csv app\n  echo one\necho two\n\nlib\n\n\n");
    assert_eq!(rules.len(), 2);
    assert_eq!(rules[0].name.as_deref(), Some("all"));
    assert_eq!(rules[0].dependencies, vec!["lib", "app"]);
    assert_eq!(rules[0].resources, vec!["data.csv"]);
    assert_eq!(rules[0].script, vec!["echo one", "echo two"]);
    assert_eq!(rules[1].name.as_deref(), Some("lib"));
    assert!(rules[1].dependencies.is_empty());
    assert!(rules[1].resources.is_empty());
    assert!(rules[1].script.is_empty());
}

#[test]
fn comment_inside_block_is_skipped() {
    let rules = manifest("a: b\n# not a command\necho a\n");
    assert_eq!(rules.len(), 1);
    assert_eq!(rules[0].script, vec!["echo a"]);
}

#[test]
fn tokens_split_on_any_whitespace() {
    let rules = manifest("  top :  x.txt\tdep   other  \n");
    assert_eq!(rules[0].name.as_deref(), Some("top"));
    assert_eq!(rules[0].dependencies, vec!["dep", "other"]);
    assert_eq!(rules[0].resources, vec!["x.txt"]);
}

#[test]
fn name_is_split_at_first_colon() {
    let rules = manifest("a: b: c\n");
    assert_eq!(rules[0].name.as_deref(), Some("a"));
    assert_eq!(rules[0].dependencies, vec!["b:", "c"]);
}

#[test]
fn comment_only_block_after_first_gives_empty_rule() {
    let rules = manifest("a\n\n# only a comment\n\n");
    assert_eq!(rules.len(), 2);
    assert_eq!(rules[1].name, None);
}

#[test]
fn last_block_without_blank_line_is_not_closed() {
    let lines: Vec<String> = vec!["a".to_string(), "".to_string(), "b".to_string()];
    let rules = parse_rules(&lines);
    assert_eq!(rules.len(), 1);
    assert_eq!(rules[0].name.as_deref(), Some("a"));
}

#[test]
fn fetch_file_reports_unreadable_path() {
    assert_eq!(fetch_file("nope.txt", None), Err("cannot open file 'nope.txt'".to_string()));
}

#[test]
fn fetch_file_splits_lines_and_adds_blank() {
    let lines = fetch_file("f", Some("a\r\nb\n\nc")).unwrap();
    assert_eq!(lines, vec!["a", "b", "", "c", ""]);
    let empty = fetch_file("f", Some("")).unwrap();
    assert_eq!(empty, vec![""]);
}

#[test]
fn complete_rule_fills_name_then_script() {
    let mut r = Rule::new();
    complete_rule(&mut r, "x: y z.o");
    complete_rule(&mut r, "make x");
    assert_eq!(r.name.as_deref(), Some("x"));
    assert_eq!(r.dependencies, vec!["y"]);
    assert_eq!(r.resources, vec!["z.o"]);
    assert_eq!(r.script, vec!["make x"]);
}

#[test]
fn push_and_prepare_appends_and_resets() {
    let mut rules = Vec::new();
    let mut r = Rule::new();
    complete_rule(&mut r, "a");
    let fresh = push_and_prepare(&mut rules, Some(r));
    assert_eq!(rules.len(), 1);
    assert_eq!(fresh.name, None);
    let _ = push_and_prepare(&mut rules, None);
    assert_eq!(rules.len(), 1);
}

#[test]
fn find_rule_takes_first_match() {
    let rules = manifest("a\none\n\nb\n\na\ntwo\n\n");
    assert_eq!(find_index(&rules, "a"), Some(0));
    assert_eq!(find_rule(&rules, "a").unwrap().script, vec!["one"]);
    assert_eq!(find_index(&rules, "b"), Some(1));
    assert!(find_rule(&rules, "c").is_none());
}

#[test]
fn latest_run_reads_store() {
    let rules = manifest("a\n\n: x\n\n");
    let mut store = StateStore::new();
    store.record("a", 42);
    assert_eq!(rules[0].latest_run(&store), Some(42));
    assert_eq!(Rule::new().latest_run(&store), None);
    assert_eq!(rules[1].name.as_deref(), Some(""));
    assert_eq!(rules[1].latest_run(&store), None);
}

#[test]
fn never_run_rule_is_planned() {
    let rules = manifest("a\necho a\n");
    let store = StateStore::new();
    let plan = resolve(&rules, "a", &store, &no_times(&rules)).ok().unwrap().order;
    assert_eq!(plan, vec![0]);
}

#[test]
fn up_to_date_rule_is_skipped() {
    let rules = manifest("a: b in.txt\n\nb\n\n");
    let mut store = StateStore::new();
    store.record("a", 100);
    store.record("b", 50);
    let times = vec![vec![100], vec![]];
    let plan = resolve(&rules, "a", &store, &times).ok().unwrap().order;
    assert!(plan.is_empty());
}

#[test]
fn stale_dependency_forces_dependent() {
    let rules = manifest("top: mid\n\nmid: leaf\n\nleaf\n\n");
    let mut store = StateStore::new();
    store.record("top", 10);
    store.record("mid", 10);
    let plan = resolve(&rules, "top", &store, &no_times(&rules)).ok().unwrap().order;
    assert_eq!(names(&rules, &plan), vec!["leaf", "mid", "top"]);
}

#[test]
fn plan_respects_dependency_order() {
    let rules = manifest("app: lib util\n\nlib: util\n\nutil\n\n");
    let store = StateStore::new();
    let plan = resolve(&rules, "app", &store, &no_times(&rules)).ok().unwrap().order;
    assert_eq!(names(&rules, &plan), vec!["util", "lib", "util", "app"]);
}

#[test]
fn build_twice_is_idempotent() {
    let rules = manifest("A: B\necho a\n\nB: x.txt\necho b\n");
    let times = vec![vec![], vec![500]];
    let mut store = StateStore::new();
    let plan = resolve(&rules, "A", &store, &times).ok().unwrap().order;
    assert_eq!(names(&rules, &plan), vec!["B", "A"]);
    for &i in &plan {
        record_completion(&rules[i], &mut store, 1000);
    }
    let again = resolve(&rules, "A", &store, &times).ok().unwrap().order;
    assert!(again.is_empty());
}

#[test]
fn missing_dependency_is_skipped() {
    let rules = manifest("A: ghost B\n\nB\n\n");
    let store = StateStore::new();
    let plan = resolve(&rules, "A", &store, &no_times(&rules)).ok().unwrap().order;
    assert_eq!(names(&rules, &plan), vec!["B", "A"]);
}

#[test]
fn newer_resource_forces_rebuild() {
    let rules = manifest("C: data.csv\n\n");
    let mut store = StateStore::new();
    store.record("C", 1000);
    let plan = resolve(&rules, "C", &store, &vec![vec![1010]]).ok().unwrap().order;
    assert_eq!(plan, vec![0]);
    let same = resolve(&rules, "C", &store, &vec![vec![1000]]).ok().unwrap().order;
    assert!(same.is_empty());
}

#[test]
fn unknown_target_gives_empty_plan() {
    let rules = manifest("a\n\n");
    let plan = resolve(&rules, "zzz", &StateStore::new(), &no_times(&rules)).ok().unwrap().order;
    assert!(plan.is_empty());
}

#[test]
fn cycle_is_reported() {
    let rules = manifest("a: b\n\nb: a\n\n");
    match resolve(&rules, "a", &StateStore::new(), &no_times(&rules)) {
        Err(PlanError::Cycle(name)) => assert_eq!(name, "a"),
        Ok(_) => panic!("a cycle must not resolve"),
    }
    let selfish = manifest("s: s\n\n");
    assert!(resolve(&selfish, "s", &StateStore::new(), &no_times(&selfish)).is_err());
}

#[test]
fn anonymous_rule_is_not_recorded() {
    let mut store = StateStore::new();
    record_completion(&Rule::new(), &mut store, 5);
    assert_eq!(store.len(), 0);
    let rules = manifest("n\n\n");
    record_completion(&rules[0], &mut store, 7);
    assert_eq!(store.get("n"), Some(7));
}

#[test]
fn default_target_is_first_rule() {
    assert_eq!(default_target(&manifest("x: y\n\ny\n\n")), Some("x".to_string()));
    assert_eq!(default_target(&manifest("# c\n\n")), None);
    let mut anon = vec![Rule::new()];
    anon[0].script.push("echo".to_string());
    assert_eq!(default_target(&anon), Some(String::new()));
}

#[test]
fn store_record_replaces() {
    let mut store = StateStore::new();
    store.record("a", 1);
    store.record("b", 2);
    store.record("a", 3);
    assert_eq!(store.len(), 2);
    assert_eq!(store.get("a"), Some(3));
    assert_eq!(store.get("b"), Some(2));
    assert_eq!(store.get("c"), None);
}

#[test]
fn store_text_round_trip() {
    let mut store = StateStore::new();
    store.record("build", 1700000000);
    store.record("a:b", 0);
    store.record("", u64::MAX);
    let text = store.to_text();
    assert_eq!(text, "build:1700000000\na:b:0\n:18446744073709551615\n");
    let back = StateStore::from_text(&text).ok().unwrap();
    assert_eq!(back.len(), 3);
    assert_eq!(back.get("build"), Some(1700000000));
    assert_eq!(back.get("a:b"), Some(0));
    assert_eq!(back.get(""), Some(u64::MAX));
}

#[test]
fn store_text_errors() {
    assert!(StateStore::from_text("a:x\n").is_err());
    assert!(StateStore::from_text("nocolon\n").is_err());
    assert!(StateStore::from_text("a:\n").is_err());
    assert!(StateStore::from_text("a:18446744073709551616\n").is_err());
    assert!(StateStore::from_text("ok:1\n\n").is_err());
    let s = StateStore::from_text("a:+7\r\na:9").ok().unwrap();
    assert_eq!(s.get("a"), Some(9));
    assert_eq!(StateStore::from_text("").ok().unwrap().len(), 0);
}

#[test]
fn numbers_in_decimal() {
    assert_eq!(decimal_string(0), "0");
    assert_eq!(decimal_string(907), "907");
    assert_eq!(parse_number("907"), Some(907));
    assert_eq!(parse_number("+0"), Some(0));
    assert_eq!(parse_number("+"), None);
    assert_eq!(parse_number("1 2"), None);
    assert_eq!(parse_number("18446744073709551615"), Some(u64::MAX));
}

#[test]
fn turn_is_won_on_exact_guess() {
    assert!(Turn { secret: 42, guess: 42 }.is_win());
    assert!(!Turn { secret: 42, guess: 41 }.is_win());
    assert!(!Turn { secret: 42, guess: 43 }.is_win());
}

#[test]
fn text_helpers_follow_std() {
    let s = "\u{3000}\t a b\u{a0}\n";
    assert_eq!(trimmed(s), s.trim());
    assert_eq!(chars_of("añb"), vec!['a', 'ñ', 'b']);
    assert!(contains_char("x.txt", '.'));
    assert!(!contains_char("xtxt", '.'));
    assert_eq!(split_lines("a\nb\r\n\r\nlast\r"), vec!["a", "b", "", "last\r"]);
    assert!(split_lines("").is_empty());
}

#[test]
fn unicode_space_separates_tokens() {
    let rules = manifest("t:\u{2003}a\u{2003}b.c\n");
    assert_eq!(rules[0].dependencies, vec!["a"]);
    assert_eq!(rules[0].resources, vec!["b.c"]);
}

#[test]
fn unnamed_first_rule_is_built() {
    let mut first = Rule::new();
    first.dependencies.push("dep".to_string());
    first.script.push("echo first".to_string());
    let mut rules = vec![first];
    rules.extend(manifest("dep\n\n"));
    let mut store = StateStore::new();
    let times = no_times(&rules);
    let res = resolve_first(&rules, &store, &times).ok().unwrap();
    assert_eq!(res.order, vec![1, 0]);
    for &i in &res.order {
        record_completion(&rules[i], &mut store, 9);
    }
    let again = resolve_first(&rules, &store, &times).ok().unwrap();
    assert_eq!(again.order, vec![0]);
    assert!(resolve_first(&Vec::new(), &store, &Vec::new()).ok().unwrap().order.is_empty());
}

#[test]
fn notices_report_missing_and_skipped() {
    let rules = manifest("A: ghost B\n\nB\n\n");
    let mut store = StateStore::new();
    store.record("B", 3);
    let res = resolve(&rules, "A", &store, &no_times(&rules)).ok().unwrap();
    assert_eq!(names(&rules, &res.order), vec!["A"]);
    assert_eq!(res.notices.len(), 2);
    match &res.notices[0] {
        Notice::Missing(n) => assert_eq!(n, "ghost"),
        Notice::Skipped(_) => panic!("expected a missing name first"),
    }
    match &res.notices[1] {
        Notice::Skipped(i) => assert_eq!(*i, 1),
        Notice::Missing(_) => panic!("expected B to be skipped"),
    }
}

#[test]
fn first_rule_resolution_reports_cycle() {
    let rules = manifest("a: b\n\nb: a\n\n");
    assert!(resolve_first(&rules, &StateStore::new(), &no_times(&rules)).is_err());
}
