use fsgitwatch::cli::Cli;
use fsgitwatch::error::FsgitError;
use fsgitwatch::git::{get_remote_urls, RemoteEntry};
use fsgitwatch::output::{closing, exit_code, format_match, report, Span, Style};
use fsgitwatch::scanner::MatchResult;
use fsgitwatch::text::decimal_text;

fn span(style: Style, text: &str) -> Span {
    Span { style, text: text.to_string() }
}

fn plain(text: &str) -> Span {
    span(Style::Plain, text)
}

fn found(path: &str, remotes: &[(&str, &str)]) -> MatchResult {
    MatchResult {
        path: path.to_string(),
        remotes: remotes.iter().map(|(n, u)| (n.to_string(), u.to_string())).collect(),
    }
}

fn text_of(spans: &[Span]) -> String {
    spans.iter().map(|s| s.text.as_str()).collect()
}

#[test]
fn decimal_text_writes_numbers() {
    assert_eq!(decimal_text(0), "0");
    assert_eq!(decimal_text(7), "7");
    assert_eq!(decimal_text(10), "10");
    assert_eq!(decimal_text(1234567890), "1234567890");
    assert_eq!(decimal_text(usize::MAX), usize::MAX.to_string());
    for n in 0..1200usize {
        assert_eq!(decimal_text(n), n.to_string());
    }
}

#[test]
fn format_match_lays_out_number_path_and_remotes() {
    let m = found("r/x", &[("origin", "git@h:a/b"), ("up", "https://h/a/b")]);
    let spans = format_match(&m, 3);
    assert_eq!(
        spans,
        vec![
            plain("\n"),
            span(Style::Yellow, "3"),
            plain(". "),
            span(Style::Bold, "r/x"),
            plain("\n   "),
            span(Style::Blue, "origin"),
            plain(": "),
            plain("git@h:a/b"),
            plain("\n   "),
            span(Style::Blue, "up"),
            plain(": "),
            plain("https://h/a/b"),
        ]
    );
    assert_eq!(text_of(&spans), "\n3. r/x\n   origin: git@h:a/b\n   up: https://h/a/b");
}

#[test]
fn report_of_nothing() {
    assert_eq!(
        report(&vec![], "acme/widget"),
        vec![vec![span(Style::YellowBold, "No repositories found matching 'acme/widget'")]]
    );
}

#[test]
fn report_of_one_match() {
    let lines = report(&vec![found("r/x", &[("origin", "u1")])], "acme/widget");
    assert_eq!(
        lines,
        vec![
            vec![
                plain("Found "),
                span(Style::GreenBold, "1"),
                plain(" matching "),
                plain("repository"),
                plain(" for '"),
                span(Style::Cyan, "acme/widget"),
                plain("':\n"),
            ],
            vec![span(Style::Yellow, "1"), plain(". "), span(Style::Bold, "r/x")],
            vec![plain("   "), span(Style::Blue, "origin"), plain(": "), plain("u1")],
            vec![],
        ]
    );
}

#[test]
fn report_of_several_matches() {
    let results = vec![found("r/x", &[("origin", "u1"), ("up", "u2")]), found("r/y", &[("o", "u3")])];
    let lines: Vec<String> = report(&results, "a/b").iter().map(|l| text_of(l)).collect();
    assert_eq!(
        lines,
        vec![
            "Found 2 matching repositories for 'a/b':\n",
            "1. r/x",
            "   origin: u1",
            "   up: u2",
            "",
            "2. r/y",
            "   o: u3",
            "",
        ]
    );
}

#[test]
fn closing_after_streamed_matches() {
    assert_eq!(
        closing(0, "a/b"),
        vec![plain("\n"), span(Style::YellowBold, "No repositories found matching 'a/b'")]
    );
    assert_eq!(
        closing(1, "a/b"),
        vec![
            plain("\n"),
            span(Style::GreenBold, "Found"),
            plain(" "),
            plain("1 repository"),
            plain(" matching '"),
            span(Style::Cyan, "a/b"),
            plain("'"),
        ]
    );
    assert_eq!(text_of(&closing(12, "a/b")), "\nFound 12 repositories matching 'a/b'");
}

#[test]
fn exit_code_tells_whether_anything_matched() {
    assert_eq!(exit_code(0), 1);
    assert_eq!(exit_code(1), 0);
    assert_eq!(exit_code(250), 0);
}

#[test]
fn remotes_without_name_or_url_are_left_out() {
    let entry = |name: Option<&str>, url: Option<&str>| RemoteEntry {
        name: name.map(|n| n.to_string()),
        url: url.map(|u| u.to_string()),
    };
    let entries = vec![
        entry(Some("origin"), Some("https://github.com/test/repo.git")),
        entry(None, Some("https://example.org/x")),
        entry(Some("broken"), None),
        entry(None, None),
        entry(Some("upstream"), Some("git@github.com:upstream/repo.git")),
    ];
    assert_eq!(
        get_remote_urls(&entries),
        vec![
            ("origin".to_string(), "https://github.com/test/repo.git".to_string()),
            ("upstream".to_string(), "git@github.com:upstream/repo.git".to_string()),
        ]
    );
    assert!(get_remote_urls(&vec![]).is_empty());
}

#[test]
fn cli_decides_how_the_run_reports() {
    let cli = |json: bool, verbose: bool| Cli {
        pattern: "a/b".to_string(),
        search_path: None,
        max_concurrent: 100,
        json,
        verbose,
    };
    assert!(cli(false, false).show_progress());
    assert!(!cli(true, false).show_progress());
    assert_eq!(cli(false, false).verbosity(), 0);
    assert_eq!(cli(false, true).verbosity(), 1);
    assert!(cli(false, false).tracks_progress());
    assert!(cli(true, true).tracks_progress());
    assert!(!cli(true, false).tracks_progress());
}

#[test]
fn every_error_has_its_message() {
    let text = || "x".to_string();
    assert_eq!(
        FsgitError::InvalidPattern(text()).message(),
        "Invalid search pattern: x. Expected format: owner/repo"
    );
    assert_eq!(FsgitError::Git(text()).message(), "Git error: x");
    assert_eq!(FsgitError::Io(text()).message(), "IO error: x");
    assert_eq!(FsgitError::UrlParse(text()).message(), "URL parse error: x");
    assert_eq!(FsgitError::PermissionDenied(text()).message(), "Permission denied: x");
    assert_eq!(FsgitError::TaskJoin(text()).message(), "Task join error: x");
    assert_eq!(FsgitError::Json(text()).message(), "JSON serialization error: x");
}

#[test]
fn test_get_remote_urls() {
    let entries = vec![RemoteEntry {
        name: Some("origin".to_string()),
        url: Some("https://github.com/test/repo.git".to_string()),
    }];
    let remotes = get_remote_urls(&entries);

    assert_eq!(remotes.len(), 1);
    assert_eq!(remotes[0].0, "origin");
    assert_eq!(remotes[0].1, "https://github.com/test/repo.git");
}

#[test]
fn test_multiple_remotes() {
    let entries = vec![
        RemoteEntry {
            name: Some("origin".to_string()),
            url: Some("https://github.com/test/repo.git".to_string()),
        },
        RemoteEntry {
            name: Some("upstream".to_string()),
            url: Some("git@github.com:upstream/repo.git".to_string()),
        },
    ];
    let remotes = get_remote_urls(&entries);

    assert_eq!(remotes.len(), 2);
    assert!(remotes.iter().any(|(name, _)| name == "origin"));
    assert!(remotes.iter().any(|(name, _)| name == "upstream"));
}
