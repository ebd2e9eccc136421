use fsgitwatch::error::FsgitError;
use fsgitwatch::matcher::RepositoryPattern;
use fsgitwatch::progress::ProgressMessage;
use fsgitwatch::scanner::{child_path, select_matching, DirEntry, Listing, MatchResult, Scan, Scanner};

fn dir(name: &str) -> DirEntry {
    DirEntry { name: name.to_string(), is_dir: true }
}

fn file(name: &str) -> DirEntry {
    DirEntry { name: name.to_string(), is_dir: false }
}

fn listing(entries: Vec<DirEntry>) -> Result<Listing, String> {
    Ok(Listing::new(entries, None).unwrap())
}

fn remote(name: &str, url: &str) -> (String, String) {
    (name.to_string(), url.to_string())
}

fn start(root: &str, pattern: &str, limit: usize) -> Scan {
    Scanner::new(root.to_string(), RepositoryPattern::new(pattern).unwrap(), limit, 0).scan()
}

fn next(scan: &mut Scan) -> (usize, String) {
    scan.next_directory().unwrap()
}

fn scanning(path: &str) -> ProgressMessage {
    ProgressMessage::ScanningDirectory(path.to_string())
}

fn warning(text: &str) -> ProgressMessage {
    ProgressMessage::Warning(text.to_string())
}

#[test]
fn scanner_keeps_what_it_was_given() {
    let scanner = Scanner::new("some/where".to_string(), RepositoryPattern::new("a/b").unwrap(), 7, 2);
    assert_eq!(scanner.search_path(), "some/where");
    assert_eq!(scanner.pattern().owner(), "a");
    assert_eq!(scanner.pattern().repo(), "b");
    assert_eq!(scanner.max_concurrent(), 7);
    assert_eq!(scanner.verbose(), 2);
    let copy = scanner.clone();
    assert_eq!(copy.search_path(), "some/where");
    assert_eq!(copy.max_concurrent(), 7);
    assert_eq!(copy.verbose(), 2);
}

#[test]
fn end_to_end_one_of_two_repositories_matches() {
    let mut scan = start("root", "acme/widget", 100);
    assert_eq!(scan.take_messages(), vec![scanning("root")]);
    assert_eq!(next(&mut scan), (0, "root".to_string()));
    assert!(scan.next_directory().is_none());
    assert!(scan.on_listing(0, listing(vec![dir("x"), dir("y")])));
    assert_eq!(scan.take_messages(), vec![scanning("root/x"), scanning("root/y")]);
    assert_eq!(next(&mut scan), (1, "root/x".to_string()));
    assert_eq!(next(&mut scan), (2, "root/y".to_string()));
    assert!(scan.next_directory().is_none());
    // The root has given its unit back; the two subdirectories hold one each.
    assert_eq!(scan.in_flight(), 2);

    assert!(scan.on_listing(1, listing(vec![dir(".git"), dir("src")])));
    assert!(scan.awaits_remotes(1));
    assert!(scan.on_listing(2, listing(vec![file("README"), dir(".git")])));
    assert!(scan.awaits_remotes(2));
    assert!(scan.take_messages().is_empty());

    let widget = remote("origin", "https://github.com/acme/widget.git");
    assert!(scan.on_remotes(1, Some(vec![widget.clone()])));
    assert!(!scan.is_complete());
    assert!(scan.on_remotes(2, Some(vec![remote("origin", "git@github.com:acme/other.git")])));
    assert!(scan.is_complete());
    assert!(!scan.is_blocked());
    assert_eq!(scan.in_flight(), 0);

    let expected = MatchResult { path: "root/x".to_string(), remotes: vec![widget] };
    assert_eq!(scan.take_messages(), vec![ProgressMessage::MatchFound(expected.clone())]);
    assert_eq!(scan.results(), &vec![expected.clone()]);
    let results = scan.finish().unwrap();
    assert_eq!(results, vec![expected]);
    assert_eq!(fsgitwatch::output::exit_code(results.len()), 0);
}

#[test]
fn end_to_end_empty_tree() {
    let mut scan = start("root", "acme/widget", 100);
    assert_eq!(next(&mut scan), (0, "root".to_string()));
    assert!(scan.on_listing(0, listing(vec![])));
    assert!(scan.is_complete());
    let results = scan.finish().unwrap();
    assert!(results.is_empty());
    assert_eq!(fsgitwatch::output::exit_code(results.len()), 1);
}

#[test]
fn end_to_end_no_repository_anywhere() {
    let mut scan = start("root", "acme/widget", 100);
    assert_eq!(next(&mut scan), (0, "root".to_string()));
    assert!(scan.on_listing(0, listing(vec![dir("a"), file("notes.txt"), dir("b")])));
    assert_eq!(next(&mut scan), (1, "root/a".to_string()));
    assert_eq!(next(&mut scan), (2, "root/b".to_string()));
    assert!(scan.on_listing(2, listing(vec![file("x")])));
    assert!(!scan.is_complete());
    assert!(scan.on_listing(1, listing(vec![dir("deep")])));
    assert_eq!(next(&mut scan), (3, "root/a/deep".to_string()));
    assert!(scan.on_listing(3, listing(vec![])));
    assert!(scan.is_complete());
    assert_eq!(
        scan.take_messages(),
        vec![scanning("root"), scanning("root/a"), scanning("root/b"), scanning("root/a/deep")]
    );
    assert!(scan.finish().unwrap().is_empty());
}

#[test]
fn repository_root_is_not_descended_into() {
    let mut scan = start("/a", "acme/widget", 100);
    assert_eq!(next(&mut scan), (0, "/a".to_string()));
    scan.take_messages();
    // `/a/sub` stands before and after `.git`; neither is ever scheduled.
    assert!(scan.on_listing(0, listing(vec![dir("sub"), dir(".git"), dir("other")])));
    assert!(scan.take_messages().is_empty());
    assert!(scan.next_directory().is_none());
    assert!(scan.awaits_remotes(0));
    assert_eq!(scan.directory(1), None);
    assert!(scan.on_remotes(0, Some(vec![remote("origin", "git@github.com:acme/widget.git")])));
    assert!(scan.next_directory().is_none());
    assert!(scan.is_complete());
    let results = scan.finish().unwrap();
    assert_eq!(results.len(), 1);
    assert_eq!(results[0].path, "/a");
}

#[test]
fn git_entry_may_be_a_file() {
    let mut scan = start("w", "acme/widget", 4);
    next(&mut scan);
    assert!(scan.on_listing(0, listing(vec![file(".git"), dir("nested")])));
    assert!(scan.awaits_remotes(0));
    assert!(scan.on_remotes(0, Some(vec![])));
    assert!(scan.is_complete());
    assert!(scan.finish().unwrap().is_empty());
}

#[test]
fn in_flight_visits_never_exceed_the_limit() {
    for limit in 1..=4usize {
        let mut scan = start("r", "acme/widget", limit);
        next(&mut scan);
        assert_eq!(scan.in_flight(), 1);
        let names: Vec<DirEntry> = (0..6).map(|i| dir(&format!("d{}", i))).collect();
        assert!(scan.on_listing(0, listing(names)));
        // The root waits for its subdirectories and holds no unit.
        assert_eq!(scan.in_flight(), 0);
        let mut running = Vec::new();
        while let Some((id, _)) = scan.next_directory() {
            running.push(id);
            assert!(scan.in_flight() <= limit);
        }
        assert_eq!(running.len(), limit);
        assert_eq!(scan.in_flight(), limit);
        assert!(!scan.is_blocked());
        let mut finished = 0;
        while let Some(id) = running.pop() {
            assert!(scan.on_listing(id, listing(vec![])));
            finished += 1;
            while let Some((id, _)) = scan.next_directory() {
                running.push(id);
            }
            assert!(scan.in_flight() <= limit);
        }
        assert_eq!(finished, 6);
        assert!(scan.is_complete());
        assert_eq!(scan.in_flight(), 0);
    }
}

#[test]
fn visits_are_given_units_in_the_order_of_scheduling() {
    let mut scan = start("r", "acme/widget", 1);
    next(&mut scan);
    assert!(scan.on_listing(0, listing(vec![dir("b"), dir("a"), dir("c")])));
    assert_eq!(next(&mut scan), (1, "r/b".to_string()));
    assert!(scan.next_directory().is_none());
    assert!(scan.on_listing(1, listing(vec![])));
    assert_eq!(next(&mut scan), (2, "r/a".to_string()));
    assert!(scan.on_listing(2, listing(vec![])));
    assert_eq!(next(&mut scan), (3, "r/c".to_string()));
}

#[test]
fn unreadable_directory_does_not_hide_its_siblings() {
    let mut scan = start("r", "acme/widget", 100);
    next(&mut scan);
    assert!(scan.on_listing(0, listing(vec![dir("a"), dir("locked"), dir("b")])));
    let a = next(&mut scan).0;
    let locked = next(&mut scan).0;
    let b = next(&mut scan).0;
    scan.take_messages();
    assert!(scan.on_listing(locked, Err("Permission denied (os error 13)".to_string())));
    assert_eq!(
        scan.take_messages(),
        vec![warning("Warning: Cannot read directory r/locked: Permission denied (os error 13)")]
    );
    for id in [a, b] {
        assert!(scan.awaits_listing(id));
        assert!(scan.on_listing(id, listing(vec![dir(".git")])));
        assert!(scan.on_remotes(id, Some(vec![remote("origin", "https://github.com/acme/widget")])));
    }
    assert!(scan.is_complete());
    let results = scan.finish().unwrap();
    let paths: Vec<&str> = results.iter().map(|r| r.path.as_str()).collect();
    assert_eq!(paths, vec!["r/a", "r/b"]);
}

#[test]
fn unreadable_root_ends_the_scan_without_failure() {
    let mut scan = start("gone", "acme/widget", 100);
    next(&mut scan);
    scan.take_messages();
    assert!(scan.on_listing(0, Err("No such file or directory (os error 2)".to_string())));
    assert!(scan.is_complete());
    assert_eq!(
        scan.take_messages(),
        vec![warning("Warning: Cannot read directory gone: No such file or directory (os error 2)")]
    );
    assert_eq!(scan.finish(), Ok(vec![]));
}

#[test]
fn unreadable_remotes_are_warned_of() {
    let mut scan = start("r", "acme/widget", 100);
    next(&mut scan);
    scan.take_messages();
    assert!(scan.on_listing(0, listing(vec![dir(".git")])));
    assert!(scan.on_remotes(0, None));
    assert_eq!(
        scan.take_messages(),
        vec![warning("Warning: Failed to read remotes from git repo at r")]
    );
    assert_eq!(scan.finish(), Ok(vec![]));
}

#[test]
fn error_while_reading_is_warned_of_and_the_scan_goes_on() {
    let mut scan = start("r", "acme/widget", 100);
    next(&mut scan);
    assert!(scan.on_listing(0, listing(vec![dir("bad"), dir("good")])));
    let bad = next(&mut scan).0;
    let good = next(&mut scan).0;
    scan.take_messages();
    let broken = Listing::new(vec![dir("lost")], Some("Input/output error".to_string())).unwrap();
    assert!(scan.on_listing(bad, Ok(broken)));
    assert_eq!(
        scan.take_messages(),
        vec![warning("Warning: Cannot read directory r/bad: Input/output error")]
    );
    // `lost` was read before the error; it is not visited.
    assert!(scan.next_directory().is_none());
    assert_eq!(scan.scheduled(), 3);
    assert!(scan.on_listing(good, listing(vec![dir(".git")])));
    assert!(scan.on_remotes(good, Some(vec![remote("up", "git@host:acme/widget")])));
    assert!(scan.is_complete());
    assert_eq!(scan.finish().unwrap().len(), 1);
}

#[test]
fn error_while_reading_the_root_does_not_fail_the_scan() {
    let mut scan = start("r", "acme/widget", 100);
    next(&mut scan);
    scan.take_messages();
    let broken = Listing::new(vec![dir("seen")], Some("Input/output error".to_string())).unwrap();
    assert!(scan.on_listing(0, Ok(broken)));
    assert!(scan.is_complete());
    assert_eq!(
        scan.take_messages(),
        vec![warning("Warning: Cannot read directory r: Input/output error")]
    );
    assert_eq!(scan.finish(), Ok(vec![]));
}

#[test]
fn git_entry_before_an_error_still_makes_a_repository() {
    let mut scan = start("r", "acme/widget", 100);
    next(&mut scan);
    let cut = Listing::new(vec![dir(".git")], Some("Input/output error".to_string())).unwrap();
    assert!(scan.on_listing(0, Ok(cut)));
    assert!(scan.awaits_remotes(0));
}

#[test]
fn only_matching_remotes_are_kept_in_order() {
    let mut scan = start("r", "acme/widget", 100);
    next(&mut scan);
    assert!(scan.on_listing(0, listing(vec![dir(".git")])));
    let remotes = vec![
        remote("fork", "git@github.com:someone/widget.git"),
        remote("upstream", "https://github.com/Acme/Widget"),
        remote("mirror", "ssh://git@example.org/acme/gadget.git"),
        remote("origin", "git@github.com:acme/widget.git"),
    ];
    assert!(scan.on_remotes(0, Some(remotes)));
    let results = scan.finish().unwrap();
    assert_eq!(
        results,
        vec![MatchResult {
            path: "r".to_string(),
            remotes: vec![
                remote("upstream", "https://github.com/Acme/Widget"),
                remote("origin", "git@github.com:acme/widget.git"),
            ],
        }]
    );
}

#[test]
fn select_matching_filters_by_url() {
    let pattern = RepositoryPattern::new("acme/widget").unwrap();
    let remotes = vec![
        remote("a", "git@github.com:acme/widget.git"),
        remote("b", "git@github.com:acme/other.git"),
        remote("c", "https://github.com/ACME/WIDGET.git"),
    ];
    assert_eq!(
        select_matching(&pattern, &remotes),
        vec![remotes[0].clone(), remotes[2].clone()]
    );
    assert!(select_matching(&pattern, &vec![]).is_empty());
}

#[test]
fn answers_that_no_visit_awaits_change_nothing() {
    let mut scan = start("r", "acme/widget", 100);
    // Not admitted yet, unknown, and the wrong kind of answer.
    assert!(!scan.on_listing(0, listing(vec![dir("a")])));
    assert!(!scan.on_listing(5, listing(vec![])));
    assert!(!scan.on_remotes(0, None));
    assert!(!scan.awaits_listing(0));
    next(&mut scan);
    assert!(scan.awaits_listing(0));
    assert!(!scan.on_remotes(0, Some(vec![])));
    assert!(scan.on_listing(0, listing(vec![])));
    assert!(!scan.on_listing(0, listing(vec![])));
    assert_eq!(scan.take_messages(), vec![scanning("r")]);
    assert_eq!(scan.directory(0), Some("r"));
    assert_eq!(scan.directory(1), None);
}

#[test]
fn one_unit_is_enough_for_a_repository_below_the_root() {
    let mut scan = start("root", "acme/widget", 1);
    assert_eq!(next(&mut scan), (0, "root".to_string()));
    assert!(scan.on_listing(0, listing(vec![dir("x")])));
    assert!(!scan.is_blocked());
    assert_eq!(next(&mut scan), (1, "root/x".to_string()));
    assert!(scan.on_listing(1, listing(vec![dir(".git")])));
    let widget = remote("origin", "https://github.com/acme/widget.git");
    assert!(scan.on_remotes(1, Some(vec![widget.clone()])));
    assert!(scan.is_complete());
    assert_eq!(
        scan.finish(),
        Ok(vec![MatchResult { path: "root/x".to_string(), remotes: vec![widget] }])
    );
}

#[test]
fn one_unit_is_enough_where_a_sibling_cannot_be_read() {
    let mut scan = start("r", "acme/widget", 1);
    next(&mut scan);
    assert!(scan.on_listing(0, listing(vec![dir("a"), dir("locked"), dir("b"), dir("c")])));
    scan.take_messages();
    let mut warnings = Vec::new();
    while let Some((id, path)) = scan.next_directory() {
        assert_eq!(scan.in_flight(), 1);
        if path == "r/locked" {
            assert!(scan.on_listing(id, Err("Permission denied".to_string())));
        } else {
            assert!(scan.on_listing(id, listing(vec![dir(".git")])));
            assert!(scan.on_remotes(id, Some(vec![remote("origin", "git@h:acme/widget.git")])));
        }
        for message in scan.take_messages() {
            if let ProgressMessage::Warning(text) = message {
                warnings.push(text);
            }
        }
    }
    assert!(scan.is_complete());
    assert_eq!(warnings, vec!["Warning: Cannot read directory r/locked: Permission denied"]);
    let results = scan.finish().unwrap();
    let paths: Vec<&str> = results.iter().map(|r| r.path.as_str()).collect();
    assert_eq!(paths, vec!["r/a", "r/b", "r/c"]);
}

#[test]
fn one_unit_is_enough_for_a_tree_without_a_repository() {
    let mut scan = start("r", "acme/widget", 1);
    let mut listed = Vec::new();
    let mut announced = Vec::new();
    loop {
        for message in scan.take_messages() {
            match message {
                ProgressMessage::ScanningDirectory(path) => announced.push(path),
                other => panic!("{:?}", other),
            }
        }
        let Some((id, path)) = scan.next_directory() else { break };
        let entries = match path.matches('/').count() {
            0 => vec![dir("a"), file("f"), dir("b")],
            1 => vec![dir("deep")],
            _ => vec![],
        };
        listed.push(path);
        assert!(scan.on_listing(id, listing(entries)));
        assert!(!scan.is_blocked());
    }
    assert!(scan.is_complete());
    assert_eq!(listed, vec!["r", "r/a", "r/b", "r/a/deep", "r/b/deep"]);
    assert_eq!(announced, listed);
    assert_eq!(scan.finish(), Ok(vec![]));
}

#[test]
fn scan_without_units_blocks_at_once() {
    let mut scan = start("r", "acme/widget", 0);
    assert!(scan.next_directory().is_none());
    assert!(scan.is_blocked());
    assert!(!scan.is_complete());
    assert_eq!(
        scan.finish(),
        Err(FsgitError::Io("Failed to acquire semaphore permit".to_string()))
    );
}

#[test]
fn abandoned_scan_fails() {
    let mut scan = start("r", "acme/widget", 3);
    next(&mut scan);
    assert!(!scan.is_blocked());
    assert_eq!(
        scan.finish(),
        Err(FsgitError::TaskJoin("Scan abandoned before it was over".to_string()))
    );
}

#[test]
fn last_child_closes_every_waiting_ancestor() {
    let mut scan = start("r", "acme/widget", 10);
    next(&mut scan);
    assert!(scan.on_listing(0, listing(vec![dir("a")])));
    next(&mut scan);
    assert!(scan.on_listing(1, listing(vec![dir("b")])));
    next(&mut scan);
    assert!(scan.on_listing(2, listing(vec![dir("c"), dir("d")])));
    let c = next(&mut scan).0;
    let d = next(&mut scan).0;
    // Only the two visits that await their listing hold a unit.
    assert_eq!(scan.in_flight(), 2);
    assert!(scan.on_listing(c, listing(vec![])));
    assert_eq!(scan.in_flight(), 1);
    assert!(!scan.is_complete());
    assert!(scan.on_listing(d, listing(vec![])));
    assert_eq!(scan.in_flight(), 0);
    assert!(scan.is_complete());
}

#[test]
fn results_have_distinct_paths() {
    let mut scan = start("r", "acme/widget", 100);
    next(&mut scan);
    assert!(scan.on_listing(0, listing(vec![dir("a"), dir("b"), dir("c")])));
    let mut ids = Vec::new();
    while let Some((id, _)) = scan.next_directory() {
        ids.push(id);
    }
    for id in ids {
        assert!(scan.on_listing(id, listing(vec![dir(".git")])));
        assert!(scan.on_remotes(id, Some(vec![remote("origin", "git@h:acme/widget")])));
    }
    let results = scan.finish().unwrap();
    assert_eq!(results.len(), 3);
    for i in 0..results.len() {
        for j in 0..i {
            assert_ne!(results[i].path, results[j].path);
        }
    }
}

#[test]
fn listing_needs_subdirectories_that_can_be_told_apart() {
    assert!(Listing::new(vec![dir("a"), dir("a")], None).is_none());
    assert!(Listing::new(vec![dir("a"), file("x"), dir("b"), dir("a")], None).is_none());
    assert!(Listing::new(vec![dir("")], None).is_none());
    assert!(Listing::new(vec![dir("a/b")], None).is_none());
    // Files are not visited; their names do not matter.
    assert!(Listing::new(vec![file("a"), file("a"), file(""), file("x/y"), dir("a")], None).is_some());
    assert!(Listing::new(vec![], None).is_some());
    assert!(Listing::new(vec![dir("a"), dir("A")], Some("late".to_string())).is_some());
}

#[test]
fn listing_reports_what_it_holds() {
    let l = Listing::new(vec![dir("b"), file(".git"), dir("a"), file("c")], None).unwrap();
    assert!(l.has_git());
    assert_eq!(l.subdirectories(), vec!["b".to_string(), "a".to_string()]);
    assert_eq!(l.error(), None);
    let m = Listing::new(vec![file(".gitignore"), dir("git")], Some("cut".to_string())).unwrap();
    assert!(!m.has_git());
    assert_eq!(m.error(), Some(&"cut".to_string()));
}

#[test]
fn child_path_joins_with_one_separator() {
    assert_eq!(child_path("root", "x"), "root/x");
    assert_eq!(child_path("/", "x"), "/x");
    assert_eq!(child_path("dir/", "x"), "dir/x");
    assert_eq!(child_path("", "x"), "x");
    assert_eq!(child_path("a/b", "c"), "a/b/c");
    assert_eq!(child_path("caf\u{e9}", "\u{fc}ber"), "caf\u{e9}/\u{fc}ber");
}

#[test]
fn root_with_trailing_separator() {
    let mut scan = start("/", "acme/widget", 100);
    assert_eq!(next(&mut scan), (0, "/".to_string()));
    assert!(scan.on_listing(0, listing(vec![dir("home")])));
    assert_eq!(next(&mut scan), (1, "/home".to_string()));
}

#[test]
fn match_result_clone_is_equal() {
    let found = MatchResult { path: "p".to_string(), remotes: vec![remote("a", "u"), remote("b", "v")] };
    assert_eq!(found.clone(), found);
}

/// A directory of a made-up tree.
enum Node {
    /// Cannot be opened.
    Locked,
    /// Holds `.git` and these remotes, or remotes that cannot be read.
    Repository(Option<Vec<(String, String)>>, Vec<(String, Node)>),
    /// Reading fails after these subdirectories.
    Broken(Vec<(String, Node)>),
    /// An ordinary directory.
    Plain(Vec<(String, Node)>),
}

/// A small generator of numbers that only depends on its seed.
struct Dice(u64);

impl Dice {
    fn roll(&mut self, sides: u64) -> u64 {
        self.0 = self.0.wrapping_mul(6364136223846793005).wrapping_add(1442695040888963407);
        (self.0 >> 33) % sides
    }
}

fn grow(dice: &mut Dice, depth: u32) -> Node {
    let children = |dice: &mut Dice| -> Vec<(String, Node)> {
        let count = if depth == 0 { 0 } else { dice.roll(4) };
        (0..count).map(|i| (format!("d{}", i), grow(dice, depth - 1))).collect()
    };
    match dice.roll(8) {
        0 => Node::Locked,
        1 => Node::Broken(children(dice)),
        2 | 3 => {
            let remotes = match dice.roll(4) {
                0 => None,
                1 => Some(vec![]),
                2 => Some(vec![remote("origin", "git@github.com:acme/widget.git")]),
                _ => Some(vec![
                    remote("fork", "https://github.com/else/widget"),
                    remote("origin", "https://github.com/Acme/Widget.git"),
                    remote("mirror", "ssh://git@example.org/acme/widget"),
                ]),
            };
            Node::Repository(remotes, children(dice))
        }
        _ => Node::Plain(children(dice)),
    }
}

fn find<'a>(node: &'a Node, root: &str, path: &str) -> &'a Node {
    if path == root {
        return node;
    }
    let children = match node {
        Node::Plain(children) | Node::Broken(children) | Node::Repository(_, children) => children,
        Node::Locked => panic!("nothing below {}", root),
    };
    for (name, child) in children {
        let below = child_path(root, name);
        if path == below || path.starts_with(&format!("{}/", below)) {
            return find(child, &below, path);
        }
    }
    panic!("no such directory: {}", path)
}

fn expected(node: &Node, path: &str, pattern: &RepositoryPattern, out: &mut Vec<MatchResult>) -> usize {
    match node {
        Node::Locked | Node::Broken(_) => 1,
        Node::Repository(remotes, _) => {
            if let Some(all) = remotes {
                let hits = select_matching(pattern, all);
                if !hits.is_empty() {
                    out.push(MatchResult { path: path.to_string(), remotes: hits });
                }
            }
            1
        }
        Node::Plain(children) => {
            let mut visited = 1;
            for (name, child) in children {
                visited += expected(child, &child_path(path, name), pattern, out);
            }
            visited
        }
    }
}

fn answer_listing(node: &Node) -> Result<Listing, String> {
    let dirs = |children: &Vec<(String, Node)>| -> Vec<DirEntry> {
        children.iter().map(|(name, _)| dir(name)).collect()
    };
    match node {
        Node::Locked => Err("Permission denied".to_string()),
        Node::Broken(children) => {
            Ok(Listing::new(dirs(children), Some("Input/output error".to_string())).unwrap())
        }
        Node::Repository(_, children) => {
            let mut entries = dirs(children);
            entries.insert(entries.len() / 2, dir(".git"));
            Ok(Listing::new(entries, None).unwrap())
        }
        Node::Plain(children) => {
            let mut entries = dirs(children);
            entries.push(file("notes.txt"));
            Ok(Listing::new(entries, None).unwrap())
        }
    }
}

#[test]
fn scans_of_made_up_trees_find_what_a_plain_walk_finds() {
    let pattern = RepositoryPattern::new("acme/widget").unwrap();
    for seed in 0..300u64 {
        let mut dice = Dice(seed);
        let tree = Node::Plain((0..3).map(|i| (format!("t{}", i), grow(&mut dice, 3))).collect());
        let mut wanted = Vec::new();
        let to_visit = expected(&tree, "root", &pattern, &mut wanted);

        let limit = 1 + dice.roll(40) as usize;
        let mut scan = start("root", "acme/widget", limit);
        let mut waiting: Vec<(usize, String, bool)> = Vec::new();
        let mut announced = 0;
        loop {
            while let Some((id, path)) = scan.next_directory() {
                waiting.push((id, path, false));
            }
            assert!(scan.in_flight() <= limit);
            for message in scan.take_messages() {
                if let ProgressMessage::ScanningDirectory(_) = message {
                    announced += 1;
                }
            }
            if scan.is_complete() {
                break;
            }
            assert!(!scan.is_blocked());
            assert!(!waiting.is_empty());
            let pick = dice.roll(waiting.len() as u64) as usize;
            let (id, path, remotes_next) = waiting.swap_remove(pick);
            let node = find(&tree, "root", &path);
            if remotes_next {
                let remotes = match node {
                    Node::Repository(remotes, _) => remotes.clone(),
                    _ => panic!("no repository at {}", path),
                };
                assert!(scan.on_remotes(id, remotes));
            } else {
                assert!(scan.on_listing(id, answer_listing(node)));
                if scan.awaits_remotes(id) {
                    waiting.push((id, path, true));
                }
            }
        }
        assert_eq!(announced, to_visit, "seed {}", seed);
        let mut found = scan.finish().unwrap();
        found.sort_by(|a, b| a.path.cmp(&b.path));
        wanted.sort_by(|a, b| a.path.cmp(&b.path));
        assert_eq!(found, wanted, "seed {}", seed);
    }
}

#[test]
fn a_deep_tree_needs_no_more_than_one_unit() {
    // A chain of directories: each visit waits for the next, and none
    // holds a unit while it waits.
    for depth in 1..8usize {
        for limit in 1..4usize {
            let mut scan = start("r", "acme/widget", limit);
            let mut level = 0;
            while let Some((id, _)) = scan.next_directory() {
                level += 1;
                assert_eq!(scan.in_flight(), 1);
                let entries = if level < depth { vec![dir("x")] } else { vec![] };
                assert!(scan.on_listing(id, listing(entries)));
                assert!(!scan.is_blocked());
            }
            assert_eq!(level, depth);
            assert!(scan.is_complete());
        }
    }
}
