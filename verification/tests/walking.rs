use findfiles::cli::{Cli, CliArgs, Output, _main, DEFAULT_IGNORE};
use findfiles::entry::{Entry, FilesError, Node};
use findfiles::pattern::{is_match, Pattern};
use findfiles::walk::{emits, files_inner, plan_child, Descend, Plan};

fn file(name: &str) -> Node {
    Node { name: name.to_string(), is_dir: false, children: Vec::new(), failure: None }
}

fn dir(name: &str, children: Vec<Node>) -> Node {
    Node { name: name.to_string(), is_dir: true, children, failure: None }
}

fn broken(name: &str, children: Vec<Node>, why: &str) -> Node {
    Node { name: name.to_string(), is_dir: true, children, failure: Some(why.to_string()) }
}

fn home() -> Vec<String> {
    vec!["home".to_string(), "u".to_string()]
}

fn project() -> Node {
    dir(
        "proj",
        vec![file("a.txt"), dir(".git", vec![file("config")]), dir("sub", vec![file("b.txt")])],
    )
}

fn args() -> CliArgs {
    CliArgs {
        matches: None,
        ignore: None,
        env_ignore: None,
        max_items: None,
        directory: false,
        absolute: false,
        is_async: false,
    }
}

fn lines(out: &Output) -> Vec<&str> {
    out.lines.iter().map(|s| s.as_str()).collect()
}

fn sorted(out: &Output) -> Vec<String> {
    let mut v = out.lines.clone();
    v.sort();
    v
}

fn paths(found: &Vec<Entry>) -> Vec<String> {
    found.iter().map(|e| e.path.join("/")).collect()
}

#[test]
fn default_ignore_hides_version_control() {
    let out = _main(&args(), &project(), &home());
    assert!(out.result.is_ok());
    assert_eq!(lines(&out), vec!["./a.txt", "./sub/b.txt"]);
}

#[test]
fn directories_only_lists_directories() {
    let mut a = args();
    a.directory = true;
    let out = _main(&a, &project(), &home());
    assert!(out.result.is_ok());
    // A directory is listed where its parent is walked; its own name
    // decides only whether the walk goes into it.
    assert_eq!(lines(&out), vec!["./.git", "./sub"]);
}

#[test]
fn directories_only_lists_nothing_below_an_ignored_directory() {
    let mut a = args();
    a.directory = true;
    let tree = dir("proj", vec![dir(".git", vec![dir("hooks", vec![])]), dir("sub", vec![dir("deep", vec![])])]);
    let out = _main(&a, &tree, &home());
    assert_eq!(lines(&out), vec!["./.git", "./sub", "./sub/deep"]);
}

#[test]
fn match_pattern_with_ignoring_switched_off() {
    let mut a = args();
    a.ignore = Some(String::new());
    a.matches = Some("\\.txt$".to_string());
    let out = _main(&a, &project(), &home());
    assert!(out.result.is_ok());
    assert_eq!(lines(&out), vec!["./a.txt", "./sub/b.txt"]);
}

#[test]
fn ignoring_switched_off_lists_version_control() {
    let mut a = args();
    a.ignore = Some(String::new());
    let out = _main(&a, &project(), &home());
    assert_eq!(lines(&out), vec!["./a.txt", "./.git/config", "./sub/b.txt"]);
}

fn five_files() -> Node {
    dir(
        "proj",
        vec![file("1"), dir("d", vec![file("2"), file("3")]), file("4"), dir("e", vec![file("5")])],
    )
}

#[test]
fn limit_of_one_shows_one_in_turn() {
    let mut a = args();
    a.max_items = Some("1".to_string());
    let out = _main(&a, &five_files(), &home());
    assert!(out.result.is_ok());
    assert_eq!(out.lines.len(), 1);
    assert_eq!(out.read, 1);
    assert_eq!(lines(&out), vec!["./1"]);
}

#[test]
fn limit_of_one_shows_one_in_tasks() {
    let mut a = args();
    a.max_items = Some("1".to_string());
    a.is_async = true;
    let out = _main(&a, &five_files(), &home());
    assert!(out.result.is_ok());
    assert_eq!(out.lines.len(), 1);
}

#[test]
fn limit_of_zero_shows_nothing() {
    let mut a = args();
    a.max_items = Some("0".to_string());
    let out = _main(&a, &five_files(), &home());
    assert!(out.result.is_ok());
    assert!(out.lines.is_empty());
}

#[test]
fn limit_is_never_exceeded() {
    for n in 0..8usize {
        let mut a = args();
        a.max_items = Some(n.to_string());
        let out = _main(&a, &five_files(), &home());
        assert!(out.lines.len() <= n);
        assert_eq!(out.lines.len(), n.min(5));
    }
}

#[test]
fn unreadable_limit_means_no_limit() {
    let mut a = args();
    a.max_items = Some("many".to_string());
    let out = _main(&a, &five_files(), &home());
    assert_eq!(lines(&out), vec!["./1", "./d/2", "./d/3", "./4", "./e/5"]);
}

#[test]
fn both_modes_find_the_same_set() {
    let mut a = args();
    let in_turn = _main(&a, &five_files(), &home());
    a.is_async = true;
    let in_tasks = _main(&a, &five_files(), &home());
    assert_eq!(sorted(&in_turn), sorted(&in_tasks));
    assert_eq!(in_turn.lines.len(), 5);
}

fn with_failure() -> Node {
    dir(
        "proj",
        vec![
            dir("first", vec![file("x")]),
            broken("bad", vec![file("seen")], "permission denied"),
            dir("last", vec![file("y")]),
            file("z"),
        ],
    )
}

#[test]
fn failed_listing_in_tasks_spares_the_siblings() {
    let mut a = args();
    a.is_async = true;
    let out = _main(&a, &with_failure(), &home());
    assert!(out.result.is_ok());
    assert_eq!(lines(&out), vec!["./first/x", "./bad/seen", "./last/y", "./z"]);
}

#[test]
fn failed_listing_in_turn_ends_the_walk() {
    let out = _main(&args(), &with_failure(), &home());
    assert_eq!(lines(&out), vec!["./first/x", "./bad/seen"]);
    match out.result {
        Err(FilesError::IO(m)) => assert_eq!(m, "permission denied"),
        _ => panic!("the failed listing is not reported"),
    }
}

#[test]
fn failure_behind_the_limit_is_not_seen() {
    let mut a = args();
    a.max_items = Some("2".to_string());
    let out = _main(&a, &with_failure(), &home());
    assert_eq!(lines(&out), vec!["./first/x", "./bad/seen"]);
    assert!(out.result.is_ok());
}

#[test]
fn failed_root_listing_in_tasks_is_dropped() {
    let mut a = args();
    a.is_async = true;
    let tree = broken("proj", vec![file("a")], "gone");
    let out = _main(&a, &tree, &home());
    assert!(out.result.is_ok());
    assert_eq!(lines(&out), vec!["./a"]);
}

#[test]
fn failed_listing_inside_an_ignored_directory_is_never_met() {
    let tree = dir("proj", vec![broken(".git", vec![], "locked"), file("a")]);
    let out = _main(&args(), &tree, &home());
    assert!(out.result.is_ok());
    assert_eq!(lines(&out), vec!["./a"]);
}

#[test]
fn ignored_root_yields_nothing() {
    let tree = dir(".git", vec![file("config")]);
    let out = _main(&args(), &tree, &home());
    assert!(out.result.is_ok());
    assert!(out.lines.is_empty());
}

#[test]
fn ignored_file_is_left_out() {
    let mut a = args();
    a.ignore = Some("\\.bak$".to_string());
    let tree = dir("proj", vec![file("a.bak"), file("a.txt"), dir("x.bak", vec![file("b.txt")])]);
    let out = _main(&a, &tree, &home());
    assert_eq!(lines(&out), vec!["./a.txt"]);
}

#[test]
fn ignore_pattern_order_of_resolution() {
    let tree = dir("proj", vec![file("keep"), file("env"), file("flag"), dir(".git", vec![file("c")])]);
    let mut a = args();
    a.env_ignore = Some("^env$".to_string());
    let out = _main(&a, &tree, &home());
    assert_eq!(lines(&out), vec!["./keep", "./flag", "./.git/c"]);
    a.ignore = Some("^flag$".to_string());
    let out = _main(&a, &tree, &home());
    assert_eq!(lines(&out), vec!["./keep", "./env", "./.git/c"]);
}

#[test]
fn default_ignore_pattern_text() {
    assert_eq!(DEFAULT_IGNORE, r#"^(\.git|\.hg|\.svn|_darcs|\.bzr)$"#);
    for name in [".git", ".hg", ".svn", "_darcs", ".bzr"] {
        let tree = dir("proj", vec![dir(name, vec![file("inside")]), file("outside")]);
        let out = _main(&args(), &tree, &home());
        assert_eq!(lines(&out), vec!["./outside"]);
    }
}

#[test]
fn malformed_match_pattern_is_an_error() {
    let mut a = args();
    a.matches = Some("foo(bar".to_string());
    let out = _main(&a, &project(), &home());
    assert!(out.lines.is_empty());
    assert!(matches!(out.result, Err(FilesError::Regex(_))));
}

#[test]
fn the_message_is_that_of_the_pattern() {
    let why = Pattern::new("foo(bar").unwrap_err();
    assert!(!why.is_empty());
    let mut a = args();
    a.matches = Some("foo(bar".to_string());
    match _main(&a, &project(), &home()).result {
        Err(FilesError::Regex(m)) => assert_eq!(m, why),
        other => panic!("{:?}", other),
    }
}

#[test]
fn the_match_pattern_fails_before_the_ignore_pattern() {
    let mut a = args();
    a.matches = Some("(".to_string());
    a.ignore = Some("[".to_string());
    match Cli::new(&a) {
        Err(FilesError::Regex(m)) => assert_eq!(m, Pattern::new("(").unwrap_err()),
        other => panic!("{:?}", other.map(|_| ())),
    }
    a.matches = Some("fine".to_string());
    match Cli::new(&a) {
        Err(FilesError::Regex(m)) => assert_eq!(m, Pattern::new("[").unwrap_err()),
        other => panic!("{:?}", other.map(|_| ())),
    }
}

#[test]
fn patterns_that_compile_give_settings() {
    let mut a = args();
    a.matches = Some("\\.txt$".to_string());
    a.ignore = Some("^target$".to_string());
    assert!(Cli::new(&a).is_ok());
    assert!(Pattern::new(DEFAULT_IGNORE).is_ok());
    assert!(Cli::new(&args()).is_ok());
}

#[test]
fn a_pattern_too_big_to_compile_is_an_error() {
    let mut a = args();
    a.matches = Some("\\w{1000}".to_string());
    assert!(matches!(Cli::new(&a), Err(FilesError::Regex(_))));
}

#[test]
fn malformed_ignore_pattern_is_an_error() {
    let mut a = args();
    a.env_ignore = Some("[".to_string());
    assert!(matches!(Cli::new(&a), Err(FilesError::Regex(_))));
}

#[test]
fn settings_are_resolved() {
    let mut a = args();
    a.matches = Some("x".to_string());
    a.max_items = Some("+12".to_string());
    a.absolute = true;
    a.directory = true;
    a.is_async = true;
    let cli = Cli::new(&a).unwrap();
    assert!(cli.matchre.is_some());
    assert!(cli.ignore.is_some());
    assert_eq!(cli.max_items, 12);
    assert!(cli.is_absolute && cli.is_directory && cli.is_async);
    a.ignore = Some(String::new());
    a.matches = None;
    a.max_items = None;
    let cli = Cli::new(&a).unwrap();
    assert!(cli.matchre.is_none());
    assert!(cli.ignore.is_none());
    assert_eq!(cli.max_items, usize::MAX);
}

#[test]
fn absolute_paths() {
    let mut a = args();
    a.absolute = true;
    let out = _main(&a, &project(), &home());
    assert_eq!(lines(&out), vec!["/home/u/proj/a.txt", "/home/u/proj/sub/b.txt"]);
}

#[test]
fn entry_outside_the_root_is_reported() {
    let cli = Cli::new(&args()).unwrap();
    let root = vec!["home".to_string(), "u".to_string(), "proj".to_string()];
    let stream = vec![
        Entry { path: vec!["home".into(), "u".into(), "proj".into(), "a".into()], is_dir: false },
        Entry { path: vec!["home".into(), "u".into(), "projects".into(), "b".into()], is_dir: false },
        Entry { path: vec!["home".into(), "u".into(), "proj".into(), "c".into()], is_dir: false },
    ];
    let out = cli.run(&root, &stream);
    assert_eq!(lines(&out), vec!["./a"]);
    assert!(matches!(out.result, Err(FilesError::StripPrefix)));
    assert!(matches!(cli.render(&stream[1], &root), Err(FilesError::StripPrefix)));
    assert_eq!(cli.render(&stream[2], &root).unwrap(), "./c");
}

#[test]
fn one_step_of_the_consumer() {
    let mut a = args();
    a.matches = Some("^a".to_string());
    let cli = Cli::new(&a).unwrap();
    let root = vec!["r".to_string()];
    let inside = Entry { path: vec!["r".to_string(), "ab".to_string()], is_dir: false };
    let other = Entry { path: vec!["r".to_string(), "b".to_string()], is_dir: false };
    let outside = Entry { path: vec!["q".to_string(), "ab".to_string()], is_dir: false };
    assert_eq!(cli.step(&inside, &root).unwrap(), Some("./ab".to_string()));
    assert_eq!(cli.step(&other, &root).unwrap(), None);
    assert!(matches!(cli.step(&outside, &root), Err(FilesError::StripPrefix)));
}

#[test]
fn a_message_alone_is_some_other_failure() {
    match FilesError::from("nothing works".to_string()) {
        FilesError::Other(m) => assert_eq!(m, "nothing works"),
        other => panic!("{:?}", other),
    }
}

#[test]
fn the_root_itself_is_shown_as_dot_slash() {
    let cli = Cli::new(&args()).unwrap();
    let root = vec!["proj".to_string()];
    let e = Entry { path: vec!["proj".to_string()], is_dir: true };
    assert_eq!(cli.render(&e, &root).unwrap(), "./");
}

#[test]
fn match_filter_looks_at_the_base_name_only() {
    let mut a = args();
    a.matches = Some("^sub".to_string());
    let out = _main(&a, &project(), &home());
    assert!(out.lines.is_empty());
    a.directory = true;
    let out = _main(&a, &project(), &home());
    assert_eq!(lines(&out), vec!["./sub"]);
    let cli = Cli::new(&a).unwrap();
    assert!(!cli.admits(&Entry { path: Vec::new(), is_dir: false }));
    assert!(cli.admits(&Entry { path: vec!["x".into(), "subway".into()], is_dir: false }));
    assert!(!cli.admits(&Entry { path: vec!["subway".into(), "x".into()], is_dir: false }));
}

#[test]
fn reading_stops_at_the_limit() {
    let mut a = args();
    a.matches = Some("^[0-9]$".to_string());
    a.max_items = Some("2".to_string());
    let cli = Cli::new(&a).unwrap();
    let root = vec!["r".to_string()];
    let stream: Vec<Entry> = ["x", "1", "y", "2", "z", "3"]
        .iter()
        .map(|n| Entry { path: vec!["r".to_string(), n.to_string()], is_dir: false })
        .collect();
    let out = cli.run(&root, &stream);
    assert_eq!(lines(&out), vec!["./1", "./2"]);
    assert_eq!(out.read, 4);
    a.max_items = Some("3".to_string());
    let out = Cli::new(&a).unwrap().run(&root, &stream);
    assert_eq!(out.read, 6);
    a.max_items = Some("0".to_string());
    let out = Cli::new(&a).unwrap().run(&root, &stream);
    assert_eq!(out.read, 0);
    a.max_items = None;
    let out = Cli::new(&a).unwrap().run(&root, &stream);
    assert_eq!(out.read, 6);
    assert_eq!(out.lines.len(), 3);
}

#[test]
fn reading_stops_at_what_cannot_be_shown() {
    let cli = Cli::new(&args()).unwrap();
    let root = vec!["r".to_string()];
    let stream = vec![
        Entry { path: vec!["r".to_string(), "a".to_string()], is_dir: false },
        Entry { path: vec!["q".to_string(), "b".to_string()], is_dir: false },
        Entry { path: vec!["r".to_string(), "c".to_string()], is_dir: false },
    ];
    let out = cli.run(&root, &stream);
    assert_eq!(out.read, 2);
    assert_eq!(lines(&out), vec!["./a"]);
}

#[test]
fn wants_more_until_the_limit() {
    let mut a = args();
    a.max_items = Some("2".to_string());
    let cli = Cli::new(&a).unwrap();
    assert!(cli.wants_more(0));
    assert!(cli.wants_more(1));
    assert!(!cli.wants_more(2));
    assert!(!cli.wants_more(3));
}

#[test]
fn every_matching_entry_is_shown_once() {
    let mut a = args();
    a.matches = Some("^[0-9]$".to_string());
    for is_async in [false, true] {
        a.is_async = is_async;
        let out = _main(&a, &five_files(), &home());
        for want in ["./1", "./d/2", "./d/3", "./4", "./e/5"] {
            assert_eq!(out.lines.iter().filter(|l| l.as_str() == want).count(), 1);
        }
    }
}

#[test]
fn walk_appends_to_what_was_sent_before() {
    let ignore = Some(Pattern::new(DEFAULT_IGNORE).unwrap());
    let mut tx = vec![Entry { path: vec!["earlier".to_string()], is_dir: false }];
    let r = files_inner(&project(), &home(), &mut tx, &ignore, false, false);
    assert!(r.is_ok());
    assert_eq!(paths(&tx), vec!["earlier", "home/u/proj/a.txt", "home/u/proj/sub/b.txt"]);
    assert!(tx.iter().all(|e| !e.is_dir));
}

#[test]
fn walk_in_tasks_returns_its_own_failure_only() {
    let mut tx = Vec::new();
    let r = files_inner(&with_failure(), &home(), &mut tx, &None, false, true);
    assert!(r.is_ok());
    assert_eq!(tx.len(), 4);
    let mut tx = Vec::new();
    let tree = broken("proj", vec![file("a")], "gone");
    let r = files_inner(&tree, &home(), &mut tx, &None, false, true);
    assert!(matches!(r, Err(FilesError::IO(m)) if m == "gone"));
    assert_eq!(paths(&tx), vec!["home/u/proj/a"]);
}

#[test]
fn files_hands_back_the_stream() {
    let mut a = args();
    a.directory = true;
    let cli = Cli::new(&a).unwrap();
    let (found, r) = cli.files(&project(), &home());
    assert!(r.is_ok());
    assert_eq!(paths(&found), vec!["home/u/proj/.git", "home/u/proj/sub"]);
    assert!(found.iter().all(|e| e.is_dir));
    assert_eq!(found[1].file_name().map(|s| s.as_str()), Some("sub"));
}

#[test]
fn name_is_tested_against_the_pattern() {
    let p = Some(Pattern::new("^a.c$").unwrap());
    assert!(is_match("abc", &p));
    assert!(!is_match("abcd", &p));
    assert!(!is_match("abc", &None));
    let q = Pattern::new("b").unwrap();
    assert!(q.accepts("abc"));
    assert!(!q.accepts("xyz"));
    assert!(Pattern::new("(").is_err());
}

#[test]
fn what_is_done_with_a_child() {
    let p = Some(Pattern::new("^x$").unwrap());
    assert_eq!(plan_child("a", false, &p, false, false), Plan { emit: true, descend: Descend::No });
    assert_eq!(plan_child("x", false, &p, false, true), Plan { emit: false, descend: Descend::No });
    assert_eq!(plan_child("x", true, &p, false, false), Plan { emit: false, descend: Descend::Here });
    assert_eq!(plan_child("x", true, &p, true, true), Plan { emit: true, descend: Descend::InTask });
    assert_eq!(plan_child("a", true, &None, true, false), Plan { emit: true, descend: Descend::Here });
}

#[test]
fn what_a_child_adds() {
    let p = Some(Pattern::new("^x$").unwrap());
    assert!(emits("a", false, &p, false));
    assert!(!emits("x", false, &p, false));
    assert!(!emits("a", false, &p, true));
    assert!(!emits("a", true, &p, false));
    assert!(emits("a", true, &p, true));
    assert!(emits("x", true, &p, true));
}
