use fsgitwatch::progress::{diagnostic, Display, ProgressMessage, ProgressTracker};
use fsgitwatch::scanner::MatchResult;

fn found(path: &str) -> MatchResult {
    MatchResult {
        path: path.to_string(),
        remotes: vec![("origin".to_string(), "git@github.com:acme/widget.git".to_string())],
    }
}

fn scanning(path: &str) -> ProgressMessage {
    ProgressMessage::ScanningDirectory(path.to_string())
}

#[test]
fn tracker_with_status_line_counts_and_shows() {
    let mut tracker = ProgressTracker::new(true, 0, "acme/widget".to_string());
    assert_eq!(tracker.pattern(), "acme/widget");
    assert!(tracker.can_count());
    assert_eq!(
        tracker.handle(scanning("r")),
        vec![Display::Status("Scanned 1 directories, found 0 matches".to_string())]
    );
    assert_eq!(
        tracker.handle(ProgressMessage::MatchFound(found("r/a"))),
        vec![
            Display::Match { index: 1, found: found("r/a") },
            Display::Status("Scanned 1 directories, found 1 matches".to_string()),
        ]
    );
    assert_eq!(tracker.handle(ProgressMessage::Warning("careful".to_string())), vec![]);
    for _ in 0..11 {
        tracker.handle(scanning("r/x"));
    }
    assert_eq!(tracker.directories(), 12);
    assert_eq!(
        tracker.handle(ProgressMessage::MatchFound(found("r/b"))),
        vec![
            Display::Match { index: 2, found: found("r/b") },
            Display::Status("Scanned 12 directories, found 2 matches".to_string()),
        ]
    );
    assert!(!tracker.is_done());
    assert_eq!(
        tracker.handle(ProgressMessage::Done),
        vec![Display::Summary("Scan complete: 12 directories scanned, 2 matches found".to_string())]
    );
    assert!(tracker.is_done());
    assert_eq!(tracker.into_matches(), vec![found("r/a"), found("r/b")]);
}

#[test]
fn tracker_without_status_line_shows_only_what_verbosity_asks_for() {
    let mut quiet = ProgressTracker::new(false, 0, "p".to_string());
    assert_eq!(quiet.handle(scanning("r")), vec![]);
    assert_eq!(quiet.handle(ProgressMessage::Warning("w".to_string())), vec![]);
    assert_eq!(quiet.handle(ProgressMessage::MatchFound(found("r"))), vec![]);
    assert_eq!(quiet.handle(ProgressMessage::Done), vec![]);
    assert_eq!(quiet.directories(), 1);
    assert_eq!(quiet.into_matches(), vec![found("r")]);

    let mut warnings = ProgressTracker::new(false, 1, "p".to_string());
    assert_eq!(warnings.handle(scanning("r")), vec![]);
    assert_eq!(
        warnings.handle(ProgressMessage::Warning("w".to_string())),
        vec![Display::Line("w".to_string())]
    );

    let mut all = ProgressTracker::new(false, 2, "p".to_string());
    assert_eq!(all.handle(scanning("r/a")), vec![Display::Line("Scanning: r/a".to_string())]);

    let mut both = ProgressTracker::new(true, 2, "p".to_string());
    assert_eq!(
        both.handle(scanning("r/a")),
        vec![
            Display::Line("Scanning: r/a".to_string()),
            Display::Status("Scanned 1 directories, found 0 matches".to_string()),
        ]
    );
}

#[test]
fn tracker_ignores_what_comes_after_done() {
    let mut tracker = ProgressTracker::new(true, 2, "p".to_string());
    tracker.handle(scanning("r"));
    tracker.handle(ProgressMessage::Done);
    assert_eq!(tracker.handle(scanning("late")), vec![]);
    assert_eq!(tracker.handle(ProgressMessage::MatchFound(found("late"))), vec![]);
    assert_eq!(tracker.handle(ProgressMessage::Warning("late".to_string())), vec![]);
    assert_eq!(tracker.handle(ProgressMessage::Done), vec![]);
    assert_eq!(tracker.directories(), 1);
    assert!(tracker.into_matches().is_empty());
}

#[test]
fn progress_message_clone_is_equal() {
    for message in [
        scanning("a"),
        ProgressMessage::MatchFound(found("b")),
        ProgressMessage::Warning("c".to_string()),
        ProgressMessage::Done,
    ] {
        assert_eq!(message.clone(), message);
    }
}

#[test]
fn run_takes_in_a_whole_stream() {
    let tracker = ProgressTracker::new(true, 1, "p".to_string());
    let (shown, matches) = tracker.run(vec![
        scanning("r"),
        ProgressMessage::Warning("w".to_string()),
        ProgressMessage::MatchFound(found("r")),
        ProgressMessage::Done,
        scanning("late"),
    ]);
    assert_eq!(
        shown,
        vec![
            Display::Status("Scanned 1 directories, found 0 matches".to_string()),
            Display::Line("w".to_string()),
            Display::Match { index: 1, found: found("r") },
            Display::Status("Scanned 1 directories, found 1 matches".to_string()),
            Display::Summary("Scan complete: 1 directories scanned, 1 matches found".to_string()),
        ]
    );
    assert_eq!(matches, vec![found("r")]);
}

#[test]
fn run_closes_a_stream_that_ends_without_a_last_word() {
    let tracker = ProgressTracker::new(true, 0, "p".to_string());
    let (shown, matches) = tracker.run(vec![scanning("a"), scanning("b")]);
    assert_eq!(
        shown,
        vec![
            Display::Status("Scanned 1 directories, found 0 matches".to_string()),
            Display::Status("Scanned 2 directories, found 0 matches".to_string()),
            Display::Summary("Scan complete: 2 directories scanned, 0 matches found".to_string()),
        ]
    );
    assert!(matches.is_empty());
    let quiet = ProgressTracker::new(false, 0, "p".to_string());
    assert_eq!(quiet.run(vec![]), (vec![], vec![]));
}

#[test]
fn without_a_tracker_only_warnings_are_printed_and_only_when_asked_for() {
    let warning = ProgressMessage::Warning("Warning: Cannot read directory r: denied".to_string());
    assert_eq!(diagnostic(&warning, 0), None);
    assert_eq!(
        diagnostic(&warning, 1),
        Some("Warning: Cannot read directory r: denied".to_string())
    );
    assert_eq!(
        diagnostic(&warning, 2),
        Some("Warning: Cannot read directory r: denied".to_string())
    );
    for level in 0..3u8 {
        assert_eq!(diagnostic(&scanning("r"), level), None);
        assert_eq!(diagnostic(&ProgressMessage::MatchFound(found("r")), level), None);
        assert_eq!(diagnostic(&ProgressMessage::Done, level), None);
    }
}
