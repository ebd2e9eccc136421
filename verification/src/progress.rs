//! What a scan tells of its progress, and the bookkeeping of whoever
//! shows it.

use crate::scan_model::{MatchModel, MessageModel};
use crate::scanner::{results_view, text_view, MatchResult};
use crate::text::{decimal, decimal_text};
use vstd::prelude::*;
use vstd::string::StringExecFns;

verus! {

/// A message from a scan to whoever shows its progress.
#[derive(Debug, PartialEq, Eq)]
pub enum ProgressMessage {
    /// A directory is being scanned.
    ScanningDirectory(String),
    /// A match was found.
    MatchFound(MatchResult),
    /// Something went wrong without stopping the scan.
    Warning(String),
    /// The scan is over.
    Done,
}

impl View for ProgressMessage {
    type V = MessageModel;

    open spec fn view(&self) -> MessageModel {
        match self {
            ProgressMessage::ScanningDirectory(path) => MessageModel::ScanningDirectory(path@),
            ProgressMessage::MatchFound(found) => MessageModel::MatchFound(found@),
            ProgressMessage::Warning(text) => MessageModel::Warning(text@),
            ProgressMessage::Done => MessageModel::Done,
        }
    }
}

impl Clone for ProgressMessage {
    fn clone(&self) -> (r: Self)
        ensures
            r@ == self@,
    {
        match self {
            ProgressMessage::ScanningDirectory(path) => ProgressMessage::ScanningDirectory(
                path.clone(),
            ),
            ProgressMessage::MatchFound(found) => ProgressMessage::MatchFound(found.clone()),
            ProgressMessage::Warning(text) => ProgressMessage::Warning(text.clone()),
            ProgressMessage::Done => ProgressMessage::Done,
        }
    }
}

/// What the messages `messages` stand for.
pub open spec fn messages_view(messages: Seq<ProgressMessage>) -> Seq<MessageModel> {
    Seq::new(messages.len(), |i: int| messages[i]@)
}

/// What a message gives to print where no tracker shows the progress of
/// the scan: the text of a warning, from verbosity 1 on, and nothing else.
pub open spec fn diagnostic_text(message: MessageModel, verbose: nat) -> Option<Seq<char>> {
    match message {
        MessageModel::Warning(text) => if verbose >= 1 {
            Some(text)
        } else {
            None
        },
        _ => None,
    }
}

/// What `message` gives to print on the diagnostic output where no
/// tracker shows the progress of the scan.
pub fn diagnostic(message: &ProgressMessage, verbose: u8) -> (text: Option<String>)
    ensures
        text_view(text) == diagnostic_text(message@, verbose as nat),
{
    match message {
        ProgressMessage::Warning(text) => {
            if verbose >= 1 {
                Some(text.clone())
            } else {
                None
            }
        },
        _ => None,
    }
}

/// Something to show.
#[derive(Debug, PartialEq, Eq)]
pub enum Display {
    /// A line of text, printed without disturbing the status line.
    Line(String),
    /// A match with its number, printed without disturbing the status line.
    Match { index: usize, found: MatchResult },
    /// The new text of the status line.
    Status(String),
    /// The last text of the status line, which is then closed.
    Summary(String),
}

/// What a `Display` stands for.
#[verifier::ext_equal]
pub enum DisplayModel {
    Line(Seq<char>),
    Match { index: nat, found: MatchModel },
    Status(Seq<char>),
    Summary(Seq<char>),
}

impl View for Display {
    type V = DisplayModel;

    open spec fn view(&self) -> DisplayModel {
        match self {
            Display::Line(text) => DisplayModel::Line(text@),
            Display::Match { index, found } => DisplayModel::Match {
                index: *index as nat,
                found: found@,
            },
            Display::Status(text) => DisplayModel::Status(text@),
            Display::Summary(text) => DisplayModel::Summary(text@),
        }
    }
}

/// What the displays `displays` stand for.
pub open spec fn displays_view(displays: Seq<Display>) -> Seq<DisplayModel> {
    Seq::new(displays.len(), |i: int| displays[i]@)
}

/// The status line after `directories` directories and `matches` matches.
pub open spec fn status_text(directories: nat, matches: nat) -> Seq<char> {
    "Scanned "@ + decimal(directories) + " directories, found "@ + decimal(matches) + " matches"@
}

/// The last status line, after `directories` directories and `matches`
/// matches.
pub open spec fn summary_text(directories: nat, matches: nat) -> Seq<char> {
    "Scan complete: "@ + decimal(directories) + " directories scanned, "@ + decimal(matches)
        + " matches found"@
}

/// The line that tells of the directory `path`.
pub open spec fn scanning_text(path: Seq<char>) -> Seq<char> {
    "Scanning: "@ + path
}

/// What a `ProgressTracker` stands for.
#[verifier::ext_equal]
pub struct TrackerModel {
    /// Whether a status line is shown.
    pub show_progress: bool,
    /// How much is told: warnings from 1 on, each directory from 2 on.
    pub verbose_level: nat,
    /// What is looked for, as the user wrote it.
    pub pattern: Seq<char>,
    /// How many directories were announced.
    pub directories: nat,
    /// The matches announced, in order.
    pub matches: Seq<MatchModel>,
    /// Whether the end of the scan was announced.
    pub done: bool,
}

impl TrackerModel {
    /// The tracker before its first message.
    pub open spec fn start(show_progress: bool, verbose_level: nat, pattern: Seq<char>) -> TrackerModel {
        TrackerModel {
            show_progress,
            verbose_level,
            pattern,
            directories: 0,
            matches: Seq::empty(),
            done: false,
        }
    }

    /// The status line as it stands.
    pub open spec fn status(self) -> DisplayModel {
        DisplayModel::Status(status_text(self.directories, self.matches.len()))
    }

    /// The tracker after `message`: a directory or a match more, or done.
    /// Nothing changes once it is done.
    pub open spec fn after(self, message: MessageModel) -> TrackerModel {
        if self.done {
            self
        } else {
            match message {
                MessageModel::ScanningDirectory(_) => TrackerModel {
                    directories: self.directories + 1,
                    ..self
                },
                MessageModel::MatchFound(found) => TrackerModel {
                    matches: self.matches.push(found),
                    ..self
                },
                MessageModel::Warning(_) => self,
                MessageModel::Done => TrackerModel { done: true, ..self },
            }
        }
    }

    /// The tracker after `messages`, in order.
    pub open spec fn after_all(self, messages: Seq<MessageModel>) -> TrackerModel
        decreases messages.len(),
    {
        if messages.len() == 0 {
            self
        } else {
            self.after_all(messages.drop_last()).after(messages.last())
        }
    }

    /// What is to be shown on `messages`, in order.
    pub open spec fn shown_all(self, messages: Seq<MessageModel>) -> Seq<DisplayModel>
        decreases messages.len(),
    {
        if messages.len() == 0 {
            Seq::empty()
        } else {
            self.shown_all(messages.drop_last()) + self.after_all(messages.drop_last()).shown(
                messages.last(),
            )
        }
    }

    /// What is to be shown on `message`, in order.
    ///
    /// A directory is told of from verbosity 2 on, a warning from 1 on; a
    /// match is shown, with its number, where a status line is shown. The
    /// status line follows each directory and each match, and is closed
    /// with a summary at the end.
    pub open spec fn shown(self, message: MessageModel) -> Seq<DisplayModel> {
        let next = self.after(message);
        if self.done {
            Seq::empty()
        } else {
            match message {
                MessageModel::ScanningDirectory(path) => {
                    let told = if self.verbose_level >= 2 {
                        seq![DisplayModel::Line(scanning_text(path))]
                    } else {
                        Seq::empty()
                    };
                    if self.show_progress {
                        told.push(next.status())
                    } else {
                        told
                    }
                },
                MessageModel::MatchFound(found) => {
                    if self.show_progress {
                        seq![
                            DisplayModel::Match { index: self.matches.len() + 1, found },
                            next.status(),
                        ]
                    } else {
                        Seq::empty()
                    }
                },
                MessageModel::Warning(text) => {
                    if self.verbose_level >= 1 {
                        seq![DisplayModel::Line(text)]
                    } else {
                        Seq::empty()
                    }
                },
                MessageModel::Done => {
                    if self.show_progress {
                        seq![
                            DisplayModel::Summary(
                                summary_text(self.directories, self.matches.len()),
                            ),
                        ]
                    } else {
                        Seq::empty()
                    }
                },
            }
        }
    }
}

/// Keeps count of what a scan announces and decides what is shown of it.
#[derive(Debug)]
pub struct ProgressTracker {
    show_progress: bool,
    verbose_level: u8,
    pattern: String,
    dirs_scanned: usize,
    matches: Vec<MatchResult>,
    done: bool,
}

impl View for ProgressTracker {
    type V = TrackerModel;

    closed spec fn view(&self) -> TrackerModel {
        TrackerModel {
            show_progress: self.show_progress,
            verbose_level: self.verbose_level as nat,
            pattern: self.pattern@,
            directories: self.dirs_scanned as nat,
            matches: results_view(self.matches@),
            done: self.done,
        }
    }
}

/// The status line after `directories` directories and `matches` matches.
fn status_line(directories: usize, matches: usize) -> (text: String)
    ensures
        text@ == status_text(directories as nat, matches as nat),
{
    let mut text = String::from_str("Scanned ");
    text.append(decimal_text(directories).as_str());
    text.append(" directories, found ");
    text.append(decimal_text(matches).as_str());
    text.append(" matches");
    text
}

/// The last status line.
fn summary_line(directories: usize, matches: usize) -> (text: String)
    ensures
        text@ == summary_text(directories as nat, matches as nat),
{
    let mut text = String::from_str("Scan complete: ");
    text.append(decimal_text(directories).as_str());
    text.append(" directories scanned, ");
    text.append(decimal_text(matches).as_str());
    text.append(" matches found");
    text
}

impl ProgressTracker {
    /// A tracker that has seen no message yet.
    pub fn new(show_progress: bool, verbose_level: u8, pattern: String) -> (tracker:
        ProgressTracker)
        ensures
            tracker@ == TrackerModel::start(show_progress, verbose_level as nat, pattern@),
    {
        let tracker = ProgressTracker {
            show_progress,
            verbose_level,
            pattern,
            dirs_scanned: 0,
            matches: Vec::new(),
            done: false,
        };
        assert(tracker@ =~= TrackerModel::start(show_progress, verbose_level as nat, pattern@));
        tracker
    }

    /// Whether the tracker can count one directory and one match more.
    pub open spec fn has_room(&self) -> bool {
        self@.directories < usize::MAX && self@.matches.len() < usize::MAX
    }

    /// Whether the tracker can count one directory and one match more.
    pub fn can_count(&self) -> (b: bool)
        ensures
            b == self.has_room(),
    {
        self.dirs_scanned < usize::MAX && self.matches.len() < usize::MAX
    }

    /// Takes in `message` and returns what is to be shown of it, in order.
    pub fn handle(&mut self, message: ProgressMessage) -> (shown: Vec<Display>)
        requires
            old(self).has_room(),
        ensures
            final(self)@ == old(self)@.after(message@),
            displays_view(shown@) == old(self)@.shown(message@),
    {
        let ghost before = self@;
        let mut shown: Vec<Display> = Vec::new();
        if self.done {
            assert(displays_view(shown@) =~= Seq::<DisplayModel>::empty());
            return shown;
        }
        match message {
            ProgressMessage::ScanningDirectory(path) => {
                self.dirs_scanned = self.dirs_scanned + 1;
                if self.verbose_level >= 2 {
                    let mut line = String::from_str("Scanning: ");
                    line.append(path.as_str());
                    shown.push(Display::Line(line));
                }
                if self.show_progress {
                    shown.push(
                        Display::Status(status_line(self.dirs_scanned, self.matches.len())),
                    );
                }
                assert(self@ =~= before.after(message@));
                assert(displays_view(shown@) =~= before.shown(message@));
            },
            ProgressMessage::MatchFound(found) => {
                let index: usize = self.matches.len() + 1;
                let ghost had = self.matches@;
                if self.show_progress {
                    let copy = found.clone();
                    self.matches.push(found);
                    shown.push(Display::Match { index, found: copy });
                    shown.push(
                        Display::Status(status_line(self.dirs_scanned, self.matches.len())),
                    );
                } else {
                    self.matches.push(found);
                }
                assert(results_view(self.matches@) =~= results_view(had).push(found@));
                assert(self@ =~= before.after(message@));
                assert(displays_view(shown@) =~= before.shown(message@));
            },
            ProgressMessage::Warning(text) => {
                if self.verbose_level >= 1 {
                    shown.push(Display::Line(text));
                }
                assert(self@ =~= before.after(message@));
                assert(displays_view(shown@) =~= before.shown(message@));
            },
            ProgressMessage::Done => {
                self.done = true;
                if self.show_progress {
                    shown.push(
                        Display::Summary(summary_line(self.dirs_scanned, self.matches.len())),
                    );
                }
                assert(self@ =~= before.after(message@));
                assert(displays_view(shown@) =~= before.shown(message@));
            },
        }
        shown
    }

    /// Takes in `messages`, in order, and then the end of the scan, as
    /// when the scan is gone without a last word. Returns what is to be
    /// shown, in order, and the matches that were announced.
    ///
    /// What follows the end of the scan among `messages` is not taken in.
    pub fn run(self, messages: Vec<ProgressMessage>) -> (r: (Vec<Display>, Vec<MatchResult>))
        requires
            self@.directories + messages@.len() < usize::MAX,
            self@.matches.len() + messages@.len() < usize::MAX,
        ensures
            displays_view(r.0@) == self@.shown_all(
                messages_view(messages@).push(MessageModel::Done),
            ),
            results_view(r.1@) == self@.after_all(
                messages_view(messages@).push(MessageModel::Done),
            ).matches,
    {
        let ghost start = self@;
        let ghost all = messages_view(messages@);
        let mut tracker = self;
        let mut shown: Vec<Display> = Vec::new();
        let mut i: usize = 0;
        assert(all.take(0) =~= Seq::<MessageModel>::empty());
        assert(displays_view(shown@) =~= Seq::<DisplayModel>::empty());
        while i < messages.len()
            invariant
                all == messages_view(messages@),
                i <= messages@.len(),
                start.directories + messages@.len() < usize::MAX,
                start.matches.len() + messages@.len() < usize::MAX,
                tracker@ == start.after_all(all.take(i as int)),
                tracker@.directories <= start.directories + i,
                tracker@.matches.len() <= start.matches.len() + i,
                displays_view(shown@) == start.shown_all(all.take(i as int)),
            decreases messages@.len() - i,
        {
            let ghost before = displays_view(shown@);
            proof {
                assert(all.take(i + 1).drop_last() =~= all.take(i as int));
                assert(all.take(i + 1).last() == all[i as int]);
            }
            let mut more = tracker.handle(messages[i].clone());
            let ghost added = displays_view(more@);
            shown.append(&mut more);
            assert(displays_view(shown@) =~= before + added);
            i += 1;
        }
        assert(all.take(i as int) =~= all);
        let ghost before = displays_view(shown@);
        proof {
            assert(all.push(MessageModel::Done).drop_last() =~= all);
        }
        let mut last = tracker.handle(ProgressMessage::Done);
        let ghost added = displays_view(last@);
        shown.append(&mut last);
        assert(displays_view(shown@) =~= before + added);
        (shown, tracker.into_matches())
    }

    /// Whether a status line is shown.
    pub fn shows_progress(&self) -> (b: bool)
        ensures
            b == self@.show_progress,
    {
        self.show_progress
    }

    /// How much is told: warnings from 1 on, each directory from 2 on.
    pub fn verbose_level(&self) -> (level: u8)
        ensures
            level == self@.verbose_level,
    {
        self.verbose_level
    }

    /// Whether the end of the scan was announced.
    pub fn is_done(&self) -> (b: bool)
        ensures
            b == self@.done,
    {
        self.done
    }

    /// How many directories were announced.
    pub fn directories(&self) -> (n: usize)
        ensures
            n == self@.directories,
    {
        self.dirs_scanned
    }

    /// What is looked for, as the user wrote it.
    pub fn pattern(&self) -> (pattern: &str)
        ensures
            pattern@ == self@.pattern,
    {
        self.pattern.as_str()
    }

    /// The matches that were announced, in order.
    pub fn into_matches(self) -> (matches: Vec<MatchResult>)
        ensures
            results_view(matches@) == self@.matches,
    {
        self.matches
    }
}

} // verus!
