//! The scan engine: which directory is listed next, what a listing or a
//! set of remotes means for the scan, and what the scan has found.
//!
//! The engine does no I/O. Whoever drives it asks which directory to list,
//! lists it, and tells the engine what came of it.

use crate::error::FsgitError;
use crate::matcher::RepositoryPattern;
use crate::progress::{messages_view, ProgressMessage};
use crate::scan_laws::lemma_blocked_only_without_units;
use crate::scan_model::{
    child_visit, distinct_subdirectories, has_git_entry, join_path,
    lemma_drained_inv, lemma_emit_inv, lemma_enter_repository_inv, lemma_grant_inv,
    lemma_matching_remotes, lemma_matching_remotes_push, lemma_open_for_closing,
    lemma_record_inv, lemma_release_inv, lemma_results_distinct, lemma_spawn_inv,
    lemma_start_inv, lemma_subdirectory_names, matching_remotes,
    remotes_warning, subdirectory_names, unreadable_warning, valid_name, EntryModel,
    ListingModel, MatchModel, MessageModel, Phase, ScanModel, VisitModel,
};
use crate::text::{chars_of, find_char, lemma_position, same_text};
use vstd::prelude::*;
use vstd::string::{StrSliceExecFns, StringExecFns};

verus! {

/// What the remotes `remotes`, as name and URL, stand for.
pub open spec fn remotes_view(remotes: Seq<(String, String)>) -> Seq<(Seq<char>, Seq<char>)> {
    Seq::new(remotes.len(), |i: int| (remotes[i].0@, remotes[i].1@))
}

/// What the text `text`, where there is one, stands for.
pub open spec fn text_view(text: Option<String>) -> Option<Seq<char>> {
    match text {
        Some(t) => Some(t@),
        None => None,
    }
}

/// A repository that matches the pattern: its directory and those of its
/// remotes, as name and URL, whose URL matches.
#[derive(Debug, PartialEq, Eq)]
pub struct MatchResult {
    pub path: String,
    pub remotes: Vec<(String, String)>,
}

impl View for MatchResult {
    type V = MatchModel;

    open spec fn view(&self) -> MatchModel {
        MatchModel { path: self.path@, remotes: remotes_view(self.remotes@) }
    }
}

impl Clone for MatchResult {
    fn clone(&self) -> (r: Self)
        ensures
            r@ == self@,
    {
        let mut remotes: Vec<(String, String)> = Vec::new();
        let mut i: usize = 0;
        while i < self.remotes.len()
            invariant
                i <= self.remotes@.len(),
                remotes_view(remotes@) == remotes_view(self.remotes@).take(i as int),
            decreases self.remotes@.len() - i,
        {
            let ghost before = remotes@;
            remotes.push((self.remotes[i].0.clone(), self.remotes[i].1.clone()));
            assert(remotes_view(remotes@) =~= remotes_view(before).push(
                (self.remotes@[i as int].0@, self.remotes@[i as int].1@),
            ));
            assert(remotes_view(self.remotes@).take(i + 1) =~= remotes_view(self.remotes@).take(
                i as int,
            ).push(remotes_view(self.remotes@)[i as int]));
            i += 1;
        }
        assert(remotes_view(self.remotes@).take(i as int) =~= remotes_view(self.remotes@));
        MatchResult { path: self.path.clone(), remotes }
    }
}

/// What the matches `results` stand for.
pub open spec fn results_view(results: Seq<MatchResult>) -> Seq<MatchModel> {
    Seq::new(results.len(), |i: int| results[i]@)
}

/// One entry of a directory: its name, and whether it is a directory.
#[derive(Debug, PartialEq, Eq)]
pub struct DirEntry {
    pub name: String,
    pub is_dir: bool,
}

impl View for DirEntry {
    type V = EntryModel;

    open spec fn view(&self) -> EntryModel {
        EntryModel { name: self.name@, is_dir: self.is_dir }
    }
}

/// What the entries `entries` stand for.
pub open spec fn entries_view(entries: Seq<DirEntry>) -> Seq<EntryModel> {
    Seq::new(entries.len(), |i: int| entries[i]@)
}

/// What reading a directory gave: the entries that were read, in order,
/// and the text of the error that ended the reading early, if one did.
///
/// The subdirectories can be told apart: each has a name that is not empty
/// and holds no `/`, and no two have the same name.
#[derive(Debug)]
pub struct Listing {
    entries: Vec<DirEntry>,
    error: Option<String>,
}

impl View for Listing {
    type V = ListingModel;

    closed spec fn view(&self) -> ListingModel {
        ListingModel { entries: entries_view(self.entries@), error: text_view(self.error) }
    }
}

/// What the outcome `outcome` of listing a directory stands for.
pub open spec fn outcome_view(outcome: Result<Listing, String>) -> Result<ListingModel, Seq<char>> {
    match outcome {
        Ok(listing) => Ok(listing@),
        Err(error) => Err(error@),
    }
}

/// Whether `name` is not empty and holds no `/`.
fn name_is_valid(name: &str) -> (b: bool)
    ensures
        b == valid_name(name@),
{
    let v = chars_of(name);
    let at: usize = find_char(&v, 0, '/');
    proof {
        assert(v@.skip(0) =~= v@);
        lemma_position(v@, '/');
    }
    v.len() > 0 && at == v.len()
}

impl Listing {
    /// What holds of every listing: its subdirectories can be told apart.
    #[verifier::type_invariant]
    pub open spec fn well_formed(&self) -> bool {
        distinct_subdirectories(self@.entries)
    }

    /// A listing of `entries`, ended early by `error` where there is one.
    ///
    /// `None` where the subdirectories among `entries` cannot be told
    /// apart: one has an empty name or a name with a `/`, or two share a
    /// name.
    pub fn new(entries: Vec<DirEntry>, error: Option<String>) -> (r: Option<Listing>)
        ensures
            r is Some <==> distinct_subdirectories(entries_view(entries@)),
            r matches Some(listing) ==> listing@ == (ListingModel {
                entries: entries_view(entries@),
                error: text_view(error),
            }),
    {
        let ghost model = entries_view(entries@);
        let n: usize = entries.len();
        let mut i: usize = 0;
        while i < n
            invariant
                n == entries@.len(),
                model == entries_view(entries@),
                i <= n,
                forall|a: int| 0 <= a < i && (#[trigger] model[a]).is_dir ==> valid_name(model[a].name),
                forall|a: int, b: int|
                    0 <= a < b < i && (#[trigger] model[a]).is_dir && (#[trigger] model[b]).is_dir
                        ==> model[a].name != model[b].name,
            decreases n - i,
        {
            if entries[i].is_dir {
                if !name_is_valid(entries[i].name.as_str()) {
                    assert(model[i as int].is_dir && !valid_name(model[i as int].name));
                    return None;
                }
                let mut j: usize = 0;
                while j < i
                    invariant
                        n == entries@.len(),
                        model == entries_view(entries@),
                        j <= i < n,
                        model[i as int].is_dir,
                        forall|a: int|
                            0 <= a < j && (#[trigger] model[a]).is_dir ==> model[a].name
                                != model[i as int].name,
                    decreases i - j,
                {
                    if entries[j].is_dir && entries[j].name == entries[i].name {
                        assert(model[j as int].is_dir && model[i as int].is_dir
                            && model[j as int].name == model[i as int].name);
                        return None;
                    }
                    j += 1;
                }
            }
            i += 1;
        }
        Some(Listing { entries, error })
    }

    /// Whether an entry named `.git` is among those read.
    pub fn has_git(&self) -> (b: bool)
        ensures
            b == has_git_entry(self@.entries),
    {
        let ghost model = entries_view(self.entries@);
        let mut i: usize = 0;
        while i < self.entries.len()
            invariant
                model == entries_view(self.entries@),
                i <= self.entries@.len(),
                forall|a: int| 0 <= a < i ==> (#[trigger] model[a]).name != ".git"@,
            decreases self.entries@.len() - i,
        {
            if same_text(self.entries[i].name.as_str(), ".git") {
                assert(model[i as int].name == ".git"@);
                return true;
            }
            i += 1;
        }
        false
    }

    /// The names of the subdirectories, in the order read.
    pub fn subdirectories(&self) -> (names: Vec<String>)
        ensures
            names_view(names@) == subdirectory_names(self@.entries),
    {
        let ghost model = entries_view(self.entries@);
        let mut names: Vec<String> = Vec::new();
        let mut i: usize = 0;
        assert(model.take(0) =~= Seq::<EntryModel>::empty());
        while i < self.entries.len()
            invariant
                model == entries_view(self.entries@),
                i <= self.entries@.len(),
                names_view(names@) == subdirectory_names(model.take(i as int)),
            decreases self.entries@.len() - i,
        {
            let ghost before = names@;
            proof {
                assert(model.take(i + 1).drop_last() =~= model.take(i as int));
                assert(model.take(i + 1).last() == model[i as int]);
            }
            if self.entries[i].is_dir {
                names.push(self.entries[i].name.clone());
                assert(names_view(names@) =~= names_view(before).push(model[i as int].name));
            }
            i += 1;
        }
        assert(model.take(i as int) =~= model);
        names
    }

    /// The text of the error that ended the reading early, if one did.
    pub fn error(&self) -> (e: Option<&String>)
        ensures
            e is Some == self@.error is Some,
            e matches Some(text) ==> self@.error == Some(text@),
    {
        self.error.as_ref()
    }
}

/// What the names `names` stand for.
pub open spec fn names_view(names: Seq<String>) -> Seq<Seq<char>> {
    Seq::new(names.len(), |i: int| names[i]@)
}

/// Those of `remotes`, in order, whose URL matches `pattern`.
pub fn select_matching(pattern: &RepositoryPattern, remotes: &Vec<(String, String)>) -> (hits: Vec<
    (String, String),
>)
    ensures
        remotes_view(hits@) == matching_remotes(pattern@, remotes_view(remotes@)),
{
    let ghost all = remotes_view(remotes@);
    let mut hits: Vec<(String, String)> = Vec::new();
    let mut i: usize = 0;
    proof {
        lemma_matching_remotes_push(pattern@, all.take(0), all[0]);
        assert(all.take(0) =~= Seq::<(Seq<char>, Seq<char>)>::empty());
        assert(remotes_view(hits@) =~= Seq::<(Seq<char>, Seq<char>)>::empty());
    }
    while i < remotes.len()
        invariant
            all == remotes_view(remotes@),
            i <= remotes@.len(),
            remotes_view(hits@) == matching_remotes(pattern@, all.take(i as int)),
        decreases remotes@.len() - i,
    {
        let ghost before = hits@;
        proof {
            lemma_matching_remotes_push(pattern@, all.take(i as int), all[i as int]);
            assert(all.take(i + 1) =~= all.take(i as int).push(all[i as int]));
        }
        if pattern.matches(remotes[i].1.as_str()) {
            hits.push((remotes[i].0.clone(), remotes[i].1.clone()));
            assert(remotes_view(hits@) =~= remotes_view(before).push(all[i as int]));
        }
        i += 1;
    }
    assert(all.take(i as int) =~= all);
    hits
}

/// The path of the entry `name` of the directory `dir`.
pub fn child_path(dir: &str, name: &str) -> (path: String)
    ensures
        path@ == join_path(dir@, name@),
{
    let n: usize = dir.unicode_len();
    let mut path = String::from_str(dir);
    if n > 0 && dir.get_char(n - 1) != '/' {
        proof {
            reveal_strlit("/");
            assert("/"@ =~= seq!['/']);
        }
        path.append("/");
    }
    path.append(name);
    path
}

/// The warning for a directory that cannot be listed.
fn unreadable_text(path: &str, error: &str) -> (text: String)
    ensures
        text@ == unreadable_warning(path@, error@),
{
    let mut text = String::from_str("Warning: Cannot read directory ");
    text.append(path);
    text.append(": ");
    text.append(error);
    text
}

/// The warning for a repository whose remotes cannot be read.
fn remotes_text(path: &str) -> (text: String)
    ensures
        text@ == remotes_warning(path@),
{
    let mut text = String::from_str("Warning: Failed to read remotes from git repo at ");
    text.append(path);
    text
}

/// What a scan is set up with: where it starts, what it looks for, how
/// many directories it may visit at one time, and how much it tells.
#[derive(Debug)]
pub struct Scanner {
    search_path: String,
    pattern: RepositoryPattern,
    max_concurrent: usize,
    verbose: u8,
}

/// What a `Scanner` stands for.
pub struct ScannerView {
    pub search_path: Seq<char>,
    pub pattern: crate::matcher::PatternView,
    pub max_concurrent: nat,
    pub verbose: nat,
}

impl View for Scanner {
    type V = ScannerView;

    closed spec fn view(&self) -> ScannerView {
        ScannerView {
            search_path: self.search_path@,
            pattern: self.pattern@,
            max_concurrent: self.max_concurrent as nat,
            verbose: self.verbose as nat,
        }
    }
}

impl Clone for Scanner {
    fn clone(&self) -> (r: Self)
        ensures
            r@ == self@,
    {
        Scanner {
            search_path: self.search_path.clone(),
            pattern: self.pattern.clone(),
            max_concurrent: self.max_concurrent,
            verbose: self.verbose,
        }
    }
}

impl Scanner {
    /// A scanner for `pattern` below `search_path`, with at most
    /// `max_concurrent` directories visited at one time.
    pub fn new(
        search_path: String,
        pattern: RepositoryPattern,
        max_concurrent: usize,
        verbose: u8,
    ) -> (s: Scanner)
        ensures
            s@ == (ScannerView {
                search_path: search_path@,
                pattern: pattern@,
                max_concurrent: max_concurrent as nat,
                verbose: verbose as nat,
            }),
    {
        Scanner { search_path, pattern, max_concurrent, verbose }
    }

    /// The directory below which the scan looks.
    pub fn search_path(&self) -> (path: &str)
        ensures
            path@ == self@.search_path,
    {
        self.search_path.as_str()
    }

    /// What the scan looks for.
    pub fn pattern(&self) -> (pattern: &RepositoryPattern)
        ensures
            pattern@ == self@.pattern,
    {
        &self.pattern
    }

    /// How many directories may be visited at one time.
    pub fn max_concurrent(&self) -> (limit: usize)
        ensures
            limit == self@.max_concurrent,
    {
        self.max_concurrent
    }

    /// How much the scan tells: warnings from 1 on, each directory from 2 on.
    pub fn verbose(&self) -> (level: u8)
        ensures
            level == self@.verbose,
    {
        self.verbose
    }

    /// Begins a scan: the search path is scheduled and announced, and no
    /// directory has been listed yet.
    pub fn scan(&self) -> (scan: Scan)
        ensures
            scan.wf(),
            scan@ == ScanModel::start(self@.search_path, self@.pattern, self@.max_concurrent),
    {
        let mut visits: Vec<Visit> = Vec::new();
        visits.push(
            Visit {
                path: self.search_path.clone(),
                name: String::new(),
                parent: None,
                phase: Phase::Queued,
                waiting_for: 0,
                repository: false,
            },
        );
        let mut outbox: Vec<ProgressMessage> = Vec::new();
        outbox.push(ProgressMessage::ScanningDirectory(self.search_path.clone()));
        let scan = Scan {
            pattern: self.pattern.clone(),
            limit: self.max_concurrent,
            visits,
            admitted: 0,
            active: 0,
            results: Vec::new(),
            sources: Ghost(Seq::empty()),
            outbox,
            ended: false,
        };
        proof {
            lemma_start_inv(self@.search_path, self@.pattern, self@.max_concurrent);
            assert(scan@ =~= ScanModel::start(
                self@.search_path,
                self@.pattern,
                self@.max_concurrent,
            ));
        }
        scan
    }
}

/// One directory visit.
#[derive(Debug)]
struct Visit {
    path: String,
    name: String,
    parent: Option<usize>,
    phase: Phase,
    waiting_for: usize,
    repository: bool,
}

impl View for Visit {
    type V = VisitModel;

    closed spec fn view(&self) -> VisitModel {
        VisitModel {
            path: self.path@,
            name: self.name@,
            parent: match self.parent {
                Some(p) => Some(p as int),
                None => None,
            },
            phase: self.phase,
            waiting_for: self.waiting_for as nat,
            repository: self.repository,
        }
    }
}

/// What the visits `visits` stand for.
spec fn visits_view(visits: Seq<Visit>) -> Seq<VisitModel> {
    Seq::new(visits.len(), |i: int| visits[i]@)
}

/// A scan in progress: the directory visits that were scheduled, the
/// matches found so far and the messages that wait to be handed out.
pub struct Scan {
    pattern: RepositoryPattern,
    limit: usize,
    visits: Vec<Visit>,
    admitted: usize,
    active: usize,
    results: Vec<MatchResult>,
    sources: Ghost<Seq<int>>,
    outbox: Vec<ProgressMessage>,
    ended: bool,
}

impl View for Scan {
    type V = ScanModel;

    closed spec fn view(&self) -> ScanModel {
        ScanModel {
            pattern: self.pattern@,
            limit: self.limit as nat,
            visits: visits_view(self.visits@),
            admitted: self.admitted as nat,
            results: results_view(self.results@),
            sources: self.sources@,
            outbox: messages_view(self.outbox@),
            ended: self.ended,
        }
    }
}

impl Scan {
    /// Whether the counts that the scan keeps are those of its visits.
    pub closed spec fn counts_agree(&self) -> bool {
        self.active == self@.holders()
    }

    /// Whether the scan is in a state that its steps can reach.
    pub open spec fn wf(&self) -> bool {
        self@.inv() && self.counts_agree()
    }

    /// `wf`, but for the visit `open`, which is about to close.
    spec fn wf_but(&self, open: Option<int>) -> bool {
        self@.inv_but(open) && self.counts_agree()
    }

    /// Gives the longest-waiting visit a unit of the concurrency limit,
    /// where a visit waits and a unit is free, and returns the visit with
    /// the directory that is now to be listed.
    pub fn next_directory(&mut self) -> (r: Option<(usize, String)>)
        requires
            old(self).wf(),
        ensures
            final(self).wf(),
            old(self)@.can_grant() ==> final(self)@ == old(self)@.grant() && (r matches Some(
                (id, path),
            ) && id == old(self)@.admitted && path@ == old(self)@.visits[id as int].path),
            !old(self)@.can_grant() ==> final(self)@ == old(self)@ && r is None,
    {
        if self.admitted < self.visits.len() && self.active < self.limit {
            let id: usize = self.admitted;
            let ghost before = self@;
            proof {
                lemma_grant_inv(before);
            }
            self.visits[id].phase = Phase::Listing;
            self.admitted = id + 1;
            self.active = self.active + 1;
            let path = self.visits[id].path.clone();
            proof {
                assert(self@.visits =~= before.grant().visits);
                assert(self@ =~= before.grant());
            }
            Some((id, path))
        } else {
            None
        }
    }

    /// Whether the visit `id` awaits the entries of its directory.
    pub fn awaits_listing(&self, id: usize) -> (b: bool)
        ensures
            b == self@.expects_listing(id as int),
    {
        id < self.visits.len() && self.visits[id].phase == Phase::Listing
    }

    /// Whether the visit `id` awaits the remotes of its repository.
    pub fn awaits_remotes(&self, id: usize) -> (b: bool)
        ensures
            b == self@.expects_remotes(id as int),
    {
        id < self.visits.len() && self.visits[id].phase == Phase::ReadingRemotes
    }

    /// The directory of the visit `id`, where there is such a visit.
    pub fn directory(&self, id: usize) -> (path: Option<&str>)
        ensures
            path is Some == (id < self@.visits.len()),
            path matches Some(p) ==> p@ == self@.visits[id as int].path,
    {
        if id < self.visits.len() {
            Some(self.visits[id].path.as_str())
        } else {
            None
        }
    }

    /// Ends the visit `id`, which is about to close, and with it every
    /// visit that waited for it alone.
    fn close(&mut self, id: usize)
        requires
            old(self).wf_but(Some(id as int)),
        ensures
            final(self).wf(),
            final(self)@ == old(self)@.close(id as int),
        decreases id,
    {
        let ghost before = self@;
        proof {
            lemma_release_inv(before, id as int);
            assert(before.visit_ok(id as int, Some(id as int)));
        }
        let held: bool = self.visits[id].phase == Phase::Listing || self.visits[id].phase
            == Phase::ReadingRemotes;
        let parent: Option<usize> = self.visits[id].parent;
        self.visits[id].phase = Phase::Finished;
        if held {
            self.active = self.active - 1;
        }
        match parent {
            None => {
                self.ended = true;
                proof {
                    assert(self@.visits =~= before.release(id as int).visits);
                    assert(self@ =~= before.release(id as int));
                }
            },
            Some(p) => {
                let waiting: usize = self.visits[p].waiting_for;
                self.visits[p].waiting_for = waiting - 1;
                proof {
                    assert(self@.visits =~= before.release(id as int).visits);
                    assert(self@ =~= before.release(id as int));
                }
                if waiting == 1 {
                    self.close(p);
                }
            },
        }
    }

    /// Schedules and announces the visits of the subdirectories `names` of
    /// the directory of the visit `id`, which gives its unit back and
    /// waits for them.
    fn spawn(&mut self, id: usize, names: Vec<String>)
        requires
            old(self).wf(),
            old(self)@.expects_listing(id as int),
            names@.len() > 0,
            forall|k: int| 0 <= k < names@.len() ==> valid_name(#[trigger] names_view(names@)[k]),
            forall|a: int, b: int|
                0 <= a < b < names@.len() ==> #[trigger] names_view(names@)[a]
                    != #[trigger] names_view(names@)[b],
        ensures
            final(self).wf(),
            final(self)@ == old(self)@.spawn(id as int, names_view(names@)),
    {
        let ghost before = self@;
        let ghost wanted = names_view(names@);
        let ghost dir_view = before.visits[id as int].path;
        proof {
            lemma_spawn_inv(before, id as int, wanted);
            assert(before.visit_ok(id as int, None));
        }
        let dir = self.visits[id].path.clone();
        self.visits[id].phase = Phase::Joining;
        self.visits[id].waiting_for = names.len();
        self.active = self.active - 1;
        let ghost kept = visits_view(self.visits@);
        let ghost sent = messages_view(self.outbox@);
        let mut k: usize = 0;
        while k < names.len()
            invariant
                k <= names@.len(),
                wanted == names_view(names@),
                dir@ == dir_view,
                visits_view(self.visits@) == kept + Seq::new(
                    k as nat,
                    |j: int| child_visit(dir_view, id as int, wanted[j]),
                ),
                messages_view(self.outbox@) == sent + Seq::new(
                    k as nat,
                    |j: int| MessageModel::ScanningDirectory(join_path(dir_view, wanted[j])),
                ),
                self.pattern == old(self).pattern,
                self.limit == old(self).limit,
                self.admitted == old(self).admitted,
                self.active == old(self).active - 1,
                self.results == old(self).results,
                self.sources == old(self).sources,
                self.ended == old(self).ended,
            decreases names@.len() - k,
        {
            let path = child_path(dir.as_str(), names[k].as_str());
            let ghost had = self.visits@;
            let ghost told = self.outbox@;
            self.outbox.push(ProgressMessage::ScanningDirectory(path.clone()));
            self.visits.push(
                Visit {
                    path,
                    name: names[k].clone(),
                    parent: Some(id),
                    phase: Phase::Queued,
                    waiting_for: 0,
                    repository: false,
                },
            );
            proof {
                assert(wanted[k as int] == names@[k as int]@);
                assert(visits_view(self.visits@) =~= visits_view(had).push(
                    child_visit(dir_view, id as int, wanted[k as int]),
                ));
                assert(messages_view(self.outbox@) =~= messages_view(told).push(
                    MessageModel::ScanningDirectory(join_path(dir_view, wanted[k as int])),
                ));
            }
            k += 1;
            proof {
                assert(visits_view(self.visits@) =~= kept + Seq::new(
                    k as nat,
                    |j: int| child_visit(dir_view, id as int, wanted[j]),
                ));
                assert(messages_view(self.outbox@) =~= sent + Seq::new(
                    k as nat,
                    |j: int| MessageModel::ScanningDirectory(join_path(dir_view, wanted[j])),
                ));
            }
        }
        proof {
            assert(kept =~= before.visits.update(
                id as int,
                VisitModel {
                    phase: Phase::Joining,
                    waiting_for: wanted.len(),
                    ..before.visits[id as int]
                },
            ));
            assert(self@.visits =~= before.spawn(id as int, wanted).visits);
            assert(self@ =~= before.spawn(id as int, wanted));
        }
    }

    /// Warns that the directory of the visit `id` cannot be listed, with
    /// the text of `error`, and ends the visit.
    fn give_up(&mut self, id: usize, error: &str)
        requires
            old(self).wf_but(Some(id as int)),
            old(self)@.expects_listing(id as int),
        ensures
            final(self).wf(),
            final(self)@ == old(self)@.emit(
                MessageModel::Warning(
                    unreadable_warning(old(self)@.visits[id as int].path, error@),
                ),
            ).close(id as int),
    {
        let ghost before = self@;
        let text = unreadable_text(self.visits[id].path.as_str(), error);
        let ghost sent = self.outbox@;
        self.outbox.push(ProgressMessage::Warning(text));
        proof {
            let warning = MessageModel::Warning(
                unreadable_warning(before.visits[id as int].path, error@),
            );
            assert(messages_view(self.outbox@) =~= messages_view(sent).push(warning));
            assert(self@ =~= before.emit(warning));
            lemma_emit_inv(before, warning, Some(id as int));
        }
        self.close(id);
    }

    /// Tells the visit `id` what listing its directory gave: `Err` with
    /// the error's text where the directory could not be opened, else the
    /// entries that were read and the error that ended the reading, if
    /// one did.
    ///
    /// Returns whether the visit awaited a listing; where it did not,
    /// nothing changes. Where the directory turns out to be a repository
    /// root, the visit then awaits its remotes.
    pub fn on_listing(&mut self, id: usize, outcome: Result<Listing, String>) -> (accepted: bool)
        requires
            old(self).wf(),
        ensures
            final(self).wf(),
            accepted == old(self)@.expects_listing(id as int),
            accepted ==> final(self)@ == old(self)@.after_listing(id as int, outcome_view(outcome)),
            !accepted ==> final(self)@ == old(self)@,
    {
        if !self.awaits_listing(id) {
            return false;
        }
        let ghost before = self@;
        proof {
            lemma_open_for_closing(before, id as int);
        }
        match outcome {
            Err(error) => {
                self.give_up(id, error.as_str());
            },
            Ok(listing) => {
                proof {
                    use_type_invariant(&listing);
                    lemma_subdirectory_names(listing@.entries);
                }
                if listing.has_git() {
                    proof {
                        lemma_enter_repository_inv(before, id as int);
                    }
                    self.visits[id].phase = Phase::ReadingRemotes;
                    self.visits[id].repository = true;
                    proof {
                        assert(self@.visits =~= before.enter_repository(id as int).visits);
                        assert(self@ =~= before.enter_repository(id as int));
                    }
                } else {
                    let names = listing.subdirectories();
                    let Listing { entries, error } = listing;
                    match error {
                        Some(text) => {
                            self.give_up(id, text.as_str());
                        },
                        None => {
                            if names.len() == 0 {
                                self.close(id);
                            } else {
                                self.spawn(id, names);
                            }
                        },
                    }
                }
            },
        }
        true
    }

    /// Tells the visit `id` the remotes of its repository, as name and
    /// URL, or `None` where they could not be read.
    ///
    /// Returns whether the visit awaited remotes; where it did not,
    /// nothing changes.
    pub fn on_remotes(&mut self, id: usize, remotes: Option<Vec<(String, String)>>) -> (accepted:
        bool)
        requires
            old(self).wf(),
        ensures
            final(self).wf(),
            accepted == old(self)@.expects_remotes(id as int),
            accepted ==> final(self)@ == old(self)@.after_remotes(
                id as int,
                match remotes {
                    Some(all) => Some(remotes_view(all@)),
                    None => None,
                },
            ),
            !accepted ==> final(self)@ == old(self)@,
    {
        if !self.awaits_remotes(id) {
            return false;
        }
        let ghost before = self@;
        proof {
            lemma_open_for_closing(before, id as int);
        }
        match remotes {
            None => {
                let text = remotes_text(self.visits[id].path.as_str());
                let ghost sent = self.outbox@;
                self.outbox.push(ProgressMessage::Warning(text));
                proof {
                    let warning = MessageModel::Warning(
                        remotes_warning(before.visits[id as int].path),
                    );
                    assert(messages_view(self.outbox@) =~= messages_view(sent).push(warning));
                    assert(self@ =~= before.emit(warning));
                    lemma_emit_inv(before, warning, Some(id as int));
                }
                self.close(id);
            },
            Some(all) => {
                let hits = select_matching(&self.pattern, &all);
                if hits.len() > 0 {
                    let found = MatchResult { path: self.visits[id].path.clone(), remotes: hits };
                    let announced = found.clone();
                    let ghost sent = self.outbox@;
                    let ghost had = self.results@;
                    proof {
                        lemma_matching_remotes(before.pattern, remotes_view(all@));
                        assert forall|k: int| 0 <= k < before.sources.len() implies #[trigger] before.sources[k]
                            != id by {
                            assert(before.result_ok(k, None));
                        }
                        lemma_record_inv(before, id as int, found@);
                    }
                    self.outbox.push(ProgressMessage::MatchFound(announced));
                    self.results.push(found);
                    self.sources = Ghost(self.sources@.push(id as int));
                    proof {
                        let recorded = before.record(id as int, found@);
                        assert(messages_view(self.outbox@) =~= recorded.outbox);
                        assert(results_view(self.results@) =~= recorded.results);
                        assert(self@ =~= recorded);
                    }
                    self.close(id);
                } else {
                    self.close(id);
                }
            },
        }
        true
    }

    /// Hands out the messages that the scan has to tell, oldest first.
    pub fn take_messages(&mut self) -> (messages: Vec<ProgressMessage>)
        requires
            old(self).wf(),
        ensures
            final(self).wf(),
            messages_view(messages@) == old(self)@.outbox,
            final(self)@ == old(self)@.drained(),
    {
        let ghost before = self@;
        let mut messages: Vec<ProgressMessage> = Vec::new();
        std::mem::swap(&mut self.outbox, &mut messages);
        proof {
            lemma_drained_inv(before, None);
            assert(messages_view(self.outbox@) =~= Seq::<MessageModel>::empty());
            assert(self@ =~= before.drained());
        }
        messages
    }

    /// Whether the scan is over: the visit of the search path has ended.
    pub fn is_complete(&self) -> (b: bool)
        ensures
            b == self@.ended,
    {
        self.ended
    }

    /// Whether nothing can happen any more although the scan is not over:
    /// no visit holds a unit and none can be given one. That is so only
    /// where the limit is zero.
    pub fn is_blocked(&self) -> (b: bool)
        requires
            self.wf(),
        ensures
            b == self@.blocked(),
            b ==> self@.limit == 0,
    {
        proof {
            if self@.blocked() {
                lemma_blocked_only_without_units(self@);
            }
        }
        !self.ended && self.active == 0 && !(self.admitted < self.visits.len() && self.active
            < self.limit)
    }

    /// How many visits hold a unit of the concurrency limit.
    pub fn in_flight(&self) -> (n: usize)
        requires
            self.wf(),
        ensures
            n == self@.holders(),
            n <= self@.limit,
    {
        self.active
    }

    /// The matches found so far, in the order of discovery.
    pub fn results(&self) -> (found: &Vec<MatchResult>)
        ensures
            results_view(found@) == self@.results,
    {
        &self.results
    }

    /// How many visits were scheduled so far. The visits are numbered in
    /// the order of scheduling, from 0 for the search path; the
    /// subdirectories of one directory are scheduled in the order in which
    /// they were read.
    pub fn scheduled(&self) -> (n: usize)
        ensures
            n == self@.visits.len(),
    {
        self.visits.len()
    }

    /// Ends the scan and hands over what it found.
    ///
    /// A scan that is over gives its matches, no two of them with the same
    /// path. A scan that is blocked, as one with a limit of zero is from
    /// the start, fails because no unit of the concurrency limit could be
    /// had; one that is neither over nor blocked fails as abandoned.
    pub fn finish(self) -> (r: Result<Vec<MatchResult>, FsgitError>)
        requires
            self.wf(),
        ensures
            self@.ended ==> (r matches Ok(found) && results_view(found@) == self@.results
                && forall|a: int, b: int|
                0 <= a < b < found@.len() ==> (#[trigger] found@[a]).path@ != (
                #[trigger] found@[b]).path@),
            !self@.ended && self@.blocked() ==> (r matches Err(FsgitError::Io(text)) && text@
                == "Failed to acquire semaphore permit"@),
            !self@.ended && !self@.blocked() ==> (r matches Err(FsgitError::TaskJoin(text))
                && text@ == "Scan abandoned before it was over"@),
    {
        let blocked: bool = self.is_blocked();
        let ghost model = self@;
        let Scan { results, ended, .. } = self;
        if ended {
            proof {
                lemma_results_distinct(model);
                assert forall|a: int, b: int| 0 <= a < b < results@.len() implies (
                #[trigger] results@[a]).path@ != (#[trigger] results@[b]).path@ by {
                    assert(model.results[a].path == results@[a].path@);
                    assert(model.results[b].path == results@[b].path@);
                }
            }
            Ok(results)
        } else if blocked {
            Err(FsgitError::Io(String::from_str("Failed to acquire semaphore permit")))
        } else {
            Err(FsgitError::TaskJoin(String::from_str("Scan abandoned before it was over")))
        }
    }
}

} // verus!
