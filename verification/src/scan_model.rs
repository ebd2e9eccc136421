//! The scan as a mathematical object: the directory visits, the rule by
//! which they are admitted, answered and closed, and what holds of every
//! state that these steps reach.

use crate::matcher::{matches_url, PatternView};
use vstd::prelude::*;

verus! {

/// Where a directory visit stands.
#[derive(Clone, Copy, Debug, PartialEq, Eq, Structural)]
pub enum Phase {
    /// Scheduled, and waiting for a unit of the concurrency limit.
    Queued,
    /// Holds a unit; the directory's entries have been asked for.
    Listing,
    /// Holds a unit; the directory is a repository root and its remotes
    /// have been asked for.
    ReadingRemotes,
    /// Its own work is done and its unit given back; waits for the visits
    /// of its subdirectories.
    Joining,
    /// Over.
    Finished,
}

/// One directory visit.
#[verifier::ext_equal]
pub struct VisitModel {
    /// The directory.
    pub path: Seq<char>,
    /// The entry name under which the directory was found; empty for the root.
    pub name: Seq<char>,
    /// The visit that found this directory; `None` for the root.
    pub parent: Option<int>,
    pub phase: Phase,
    /// How many visits of subdirectories are not over yet.
    pub waiting_for: nat,
    /// Whether the directory was found to hold a `.git` entry.
    pub repository: bool,
}

/// One entry of a directory.
#[verifier::ext_equal]
pub struct EntryModel {
    pub name: Seq<char>,
    pub is_dir: bool,
}

/// What reading a directory gave: the entries that were read, in order, and
/// the error that ended the reading early, if one did.
#[verifier::ext_equal]
pub struct ListingModel {
    pub entries: Seq<EntryModel>,
    pub error: Option<Seq<char>>,
}

/// A repository that matches: its directory and those of its remotes, as
/// name and URL, whose URL matches the pattern.
#[verifier::ext_equal]
pub struct MatchModel {
    pub path: Seq<char>,
    pub remotes: Seq<(Seq<char>, Seq<char>)>,
}

/// What a scan tells whoever shows its progress.
#[verifier::ext_equal]
pub enum MessageModel {
    ScanningDirectory(Seq<char>),
    MatchFound(MatchModel),
    Warning(Seq<char>),
    Done,
}

/// What is counted among the visits.
pub enum Tally {
    /// The visits that hold a unit of the concurrency limit.
    Holder,
    /// The visits, not over yet, of the subdirectories that one visit found.
    ChildOf(int),
}

/// Whether a visit in phase `phase` holds a unit of the concurrency limit:
/// from the moment its directory is to be listed until the listing, and
/// the remotes where the directory is a repository root, have been dealt
/// with.
pub open spec fn holds_unit(phase: Phase) -> bool {
    phase == Phase::Listing || phase == Phase::ReadingRemotes
}

/// Whether a visit in phase `phase` has begun and is not over.
pub open spec fn underway(phase: Phase) -> bool {
    phase == Phase::Listing || phase == Phase::ReadingRemotes || phase == Phase::Joining
}

/// Whether `v` counts towards `what`.
pub open spec fn counted(v: VisitModel, what: Tally) -> bool {
    match what {
        Tally::Holder => holds_unit(v.phase),
        Tally::ChildOf(p) => v.parent == Some(p) && v.phase != Phase::Finished,
    }
}

/// How many of `visits` count towards `what`.
pub open spec fn tally(visits: Seq<VisitModel>, what: Tally) -> nat
    decreases visits.len(),
{
    if visits.len() == 0 {
        0
    } else {
        tally(visits.drop_last(), what) + if counted(visits.last(), what) {
            1nat
        } else {
            0nat
        }
    }
}

/// Whether `name` can be the name of a directory entry: not empty, and
/// without a separator.
pub open spec fn valid_name(name: Seq<char>) -> bool {
    name.len() > 0 && !name.contains('/')
}

/// The path of the entry `name` of the directory `dir`.
pub open spec fn join_path(dir: Seq<char>, name: Seq<char>) -> Seq<char> {
    if dir.len() == 0 || dir.last() == '/' {
        dir + name
    } else {
        dir + seq!['/'] + name
    }
}

/// Whether `path` lies below `root`: it extends `root` and does not end in
/// a separator.
pub open spec fn below_root(root: Seq<char>, path: Seq<char>) -> bool {
    root.is_prefix_of(path) && path.len() > root.len() && path.last() != '/'
}

/// The names of the entries of `entries` that are directories, in order.
pub open spec fn subdirectory_names(entries: Seq<EntryModel>) -> Seq<Seq<char>>
    decreases entries.len(),
{
    if entries.len() == 0 {
        Seq::empty()
    } else if entries.last().is_dir {
        subdirectory_names(entries.drop_last()).push(entries.last().name)
    } else {
        subdirectory_names(entries.drop_last())
    }
}

/// Whether `entries` holds a directory named `name`.
pub open spec fn is_subdirectory(entries: Seq<EntryModel>, name: Seq<char>) -> bool {
    exists|i: int| 0 <= i < entries.len() && (#[trigger] entries[i]).is_dir && entries[i].name == name
}

/// Whether `entries` holds an entry named `.git`.
pub open spec fn has_git_entry(entries: Seq<EntryModel>) -> bool {
    exists|i: int| 0 <= i < entries.len() && (#[trigger] entries[i]).name == ".git"@
}

/// Whether the subdirectories among `entries` can be told apart: their
/// names are valid and no two are the same.
pub open spec fn distinct_subdirectories(entries: Seq<EntryModel>) -> bool {
    &&& forall|i: int|
        0 <= i < entries.len() && (#[trigger] entries[i]).is_dir ==> valid_name(entries[i].name)
    &&& forall|i: int, j: int|
        0 <= i < j < entries.len() && (#[trigger] entries[i]).is_dir && (#[trigger] entries[j]).is_dir
            ==> entries[i].name != entries[j].name
}

/// Those of `remotes`, as name and URL, whose URL matches `pattern`.
pub open spec fn matching_remotes(
    pattern: PatternView,
    remotes: Seq<(Seq<char>, Seq<char>)>,
) -> Seq<(Seq<char>, Seq<char>)> {
    remotes.filter(|r: (Seq<char>, Seq<char>)| matches_url(pattern, r.1))
}

/// The warning for a directory that cannot be listed.
pub open spec fn unreadable_warning(path: Seq<char>, error: Seq<char>) -> Seq<char> {
    "Warning: Cannot read directory "@ + path + ": "@ + error
}

/// The warning for a repository whose remotes cannot be read.
pub open spec fn remotes_warning(path: Seq<char>) -> Seq<char> {
    "Warning: Failed to read remotes from git repo at "@ + path
}

/// Adding a visit adds it to the count where it counts.
pub proof fn lemma_tally_push(visits: Seq<VisitModel>, v: VisitModel, what: Tally)
    ensures
        tally(visits.push(v), what) == tally(visits, what) + if counted(v, what) {
            1nat
        } else {
            0nat
        },
{
    assert(visits.push(v).drop_last() =~= visits);
}

/// Replacing a visit changes the count by what the two visits count.
pub proof fn lemma_tally_update(visits: Seq<VisitModel>, i: int, v: VisitModel, what: Tally)
    requires
        0 <= i < visits.len(),
    ensures
        tally(visits.update(i, v), what) + (if counted(visits[i], what) {
            1nat
        } else {
            0nat
        }) == tally(visits, what) + if counted(v, what) {
            1nat
        } else {
            0nat
        },
    decreases visits.len(),
{
    let after = visits.update(i, v);
    if i == visits.len() - 1 {
        assert(after.drop_last() =~= visits.drop_last());
    } else {
        assert(after.drop_last() =~= visits.drop_last().update(i, v));
        lemma_tally_update(visits.drop_last(), i, v, what);
    }
}

/// A count is at most the number of visits, and positive where a visit counts.
pub proof fn lemma_tally_bounds(visits: Seq<VisitModel>, what: Tally)
    ensures
        tally(visits, what) <= visits.len(),
        (exists|i: int| 0 <= i < visits.len() && counted(#[trigger] visits[i], what)) <==> tally(
            visits,
            what,
        ) > 0,
    decreases visits.len(),
{
    if visits.len() > 0 {
        let front = visits.drop_last();
        lemma_tally_bounds(front, what);
        if tally(front, what) > 0 {
            let i = choose|i: int| 0 <= i < front.len() && counted(#[trigger] front[i], what);
            assert(counted(visits[i], what));
        }
        if exists|i: int| 0 <= i < visits.len() && counted(#[trigger] visits[i], what) {
            let i = choose|i: int| 0 <= i < visits.len() && counted(#[trigger] visits[i], what);
            if i < front.len() {
                assert(counted(front[i], what));
            }
        }
    }
}

/// Visits added at the end that do not count leave the count as it is.
pub proof fn lemma_tally_extend(visits: Seq<VisitModel>, more: Seq<VisitModel>, what: Tally)
    requires
        forall|k: int| 0 <= k < more.len() ==> !counted(#[trigger] more[k], what),
    ensures
        tally(visits + more, what) == tally(visits, what),
    decreases more.len(),
{
    if more.len() == 0 {
        assert(visits + more =~= visits);
    } else {
        assert((visits + more).drop_last() =~= visits + more.drop_last());
        lemma_tally_extend(visits, more.drop_last(), what);
    }
}

/// Visits added at the end that all count raise the count by their number.
pub proof fn lemma_tally_extend_all(visits: Seq<VisitModel>, more: Seq<VisitModel>, what: Tally)
    requires
        forall|k: int| 0 <= k < more.len() ==> counted(#[trigger] more[k], what),
    ensures
        tally(visits + more, what) == tally(visits, what) + more.len(),
    decreases more.len(),
{
    if more.len() == 0 {
        assert(visits + more =~= visits);
    } else {
        assert((visits + more).drop_last() =~= visits + more.drop_last());
        lemma_tally_extend_all(visits, more.drop_last(), what);
    }
}

/// How a joined path is made up: the name stands at its end, what stands
/// before the name is empty or ends in a separator, and it is the
/// directory, followed by a separator unless the directory is empty or
/// ends in one.
pub proof fn lemma_join_path_parts(dir: Seq<char>, name: Seq<char>)
    ensures
        ({
            let q = join_path(dir, name);
            let h = q.len() - name.len();
            &&& 0 <= h <= q.len()
            &&& q.skip(h) == name
            &&& h == 0 || q[h - 1] == '/'
            &&& dir == q.take(h) || (dir + seq!['/'] == q.take(h) && dir.len() > 0 && dir.last()
                != '/')
        }),
{
    let q = join_path(dir, name);
    let h = q.len() - name.len();
    assert(q.skip(h) =~= name);
    if dir.len() == 0 || dir.last() == '/' {
        assert(dir =~= q.take(h));
        if dir.len() > 0 {
            assert(q[h - 1] == dir.last());
        }
    } else {
        assert(dir + seq!['/'] =~= q.take(h));
        assert(q[h - 1] == seq!['/'][0]);
    }
}

/// A path and a valid name are both known from the path that joins them,
/// among the directories that are a root or lie below it.
pub proof fn lemma_join_path_injective(
    root: Seq<char>,
    dir1: Seq<char>,
    name1: Seq<char>,
    dir2: Seq<char>,
    name2: Seq<char>,
)
    requires
        valid_name(name1),
        valid_name(name2),
        dir1 == root || below_root(root, dir1),
        dir2 == root || below_root(root, dir2),
        join_path(dir1, name1) == join_path(dir2, name2),
    ensures
        dir1 == dir2,
        name1 == name2,
{
    let q = join_path(dir1, name1);
    let h1 = (q.len() - name1.len()) as int;
    let h2 = (q.len() - name2.len()) as int;
    lemma_join_path_parts(dir1, name1);
    lemma_join_path_parts(dir2, name2);
    // A name holds no separator, so neither name reaches back over the
    // separator before the other.
    if h1 < h2 {
        assert(name1[h2 - 1 - h1] == q[h2 - 1]);
        assert(name1.contains('/'));
    }
    if h2 < h1 {
        assert(name2[h1 - 1 - h2] == q[h1 - 1]);
        assert(name2.contains('/'));
    }
    assert(h1 == h2);
    let head = q.take(h1);
    if dir1 != dir2 {
        // One of the two ends in a separator and is one longer than the
        // other: the longer is the root, and the shorter does not extend it.
        if dir1 == head {
            assert(dir2 + seq!['/'] == dir1);
            assert(dir1.last() == seq!['/'][0]);
            assert(dir2.len() + 1 == dir1.len());
        } else {
            if dir2 != head {
                assert(dir1 =~= head.drop_last());
                assert(dir2 =~= head.drop_last());
            }
            assert(dir1 + seq!['/'] == dir2);
            assert(dir2.last() == seq!['/'][0]);
            assert(dir1.len() + 1 == dir2.len());
        }
    }
}

/// The path of an entry with a valid name lies below the root where its
/// directory is the root or lies below it.
pub proof fn lemma_join_path_below_root(root: Seq<char>, dir: Seq<char>, name: Seq<char>)
    requires
        valid_name(name),
        dir == root || below_root(root, dir),
    ensures
        below_root(root, join_path(dir, name)),
{
    let q = join_path(dir, name);
    assert(q.last() == name.last());
    assert(name.contains(name.last())) by {
        assert(name[name.len() - 1] == name.last());
    }
    assert(root.is_prefix_of(q)) by {
        assert(root =~= dir.subrange(0, root.len() as int));
        assert(q.subrange(0, root.len() as int) =~= dir.subrange(0, root.len() as int));
    }
}

/// A scan in progress.
#[verifier::ext_equal]
pub struct ScanModel {
    /// What is looked for.
    pub pattern: PatternView,
    /// How many visits may hold a unit at one time.
    pub limit: nat,
    /// Every visit that was scheduled, in the order of scheduling; the root
    /// comes first.
    pub visits: Seq<VisitModel>,
    /// How many visits were admitted; they are the first of `visits`.
    pub admitted: nat,
    /// The matches found, in the order of discovery.
    pub results: Seq<MatchModel>,
    /// For each match, the visit that found it.
    pub sources: Seq<int>,
    /// The progress messages that were not handed out yet.
    pub outbox: Seq<MessageModel>,
    /// Whether the visit of the root is over.
    pub ended: bool,
}

/// The visit of the entry `name` of `dir`, as it is scheduled by `parent`.
pub open spec fn child_visit(dir: Seq<char>, parent: int, name: Seq<char>) -> VisitModel {
    VisitModel {
        path: join_path(dir, name),
        name,
        parent: Some(parent),
        phase: Phase::Queued,
        waiting_for: 0,
        repository: false,
    }
}

impl ScanModel {
    /// The scan of `root` before its first step: the root is scheduled and
    /// announced.
    pub open spec fn start(root: Seq<char>, pattern: PatternView, limit: nat) -> ScanModel {
        ScanModel {
            pattern,
            limit,
            visits: seq![
                VisitModel {
                    path: root,
                    name: Seq::empty(),
                    parent: None,
                    phase: Phase::Queued,
                    waiting_for: 0,
                    repository: false,
                },
            ],
            admitted: 0,
            results: Seq::empty(),
            sources: Seq::empty(),
            outbox: seq![MessageModel::ScanningDirectory(root)],
            ended: false,
        }
    }

    /// How many visits hold a unit of the concurrency limit.
    pub open spec fn holders(self) -> nat {
        tally(self.visits, Tally::Holder)
    }

    /// Whether a visit waits and a unit is free for it.
    pub open spec fn can_grant(self) -> bool {
        self.admitted < self.visits.len() && self.holders() < self.limit
    }

    /// Whether nothing can happen any more although the scan is not over:
    /// no answer is awaited and no visit can be admitted.
    pub open spec fn blocked(self) -> bool {
        !self.ended && self.holders() == 0 && !self.can_grant()
    }

    /// Whether the visit `id` awaits the entries of its directory.
    pub open spec fn expects_listing(self, id: int) -> bool {
        0 <= id < self.visits.len() && self.visits[id].phase == Phase::Listing
    }

    /// Whether the visit `id` awaits the remotes of its repository.
    pub open spec fn expects_remotes(self, id: int) -> bool {
        0 <= id < self.visits.len() && self.visits[id].phase == Phase::ReadingRemotes
    }

    /// The scan with the visit `id` in phase `phase`.
    pub open spec fn with_phase(self, id: int, phase: Phase) -> ScanModel {
        ScanModel { visits: self.visits.update(id, VisitModel { phase, ..self.visits[id] }), ..self }
    }

    /// The scan with `message` added to what it has to tell.
    pub open spec fn emit(self, message: MessageModel) -> ScanModel {
        ScanModel { outbox: self.outbox.push(message), ..self }
    }

    /// The scan after the longest-waiting visit was given a unit: its
    /// directory is now to be listed.
    pub open spec fn grant(self) -> ScanModel {
        ScanModel { admitted: self.admitted + 1, ..self.with_phase(
            self.admitted as int,
            Phase::Listing,
        ) }
    }

    /// The scan after the visit `id` ended.
    ///
    /// The visit gives back the unit that it holds, where it holds one.
    /// With the root's visit the scan is over. For any other the visit
    /// that found its directory counts one visit less to wait for.
    pub open spec fn release(self, id: int) -> ScanModel {
        let done = self.with_phase(id, Phase::Finished);
        match self.visits[id].parent {
            None => ScanModel { ended: true, ..done },
            Some(p) => ScanModel {
                visits: done.visits.update(
                    p,
                    VisitModel {
                        waiting_for: (done.visits[p].waiting_for - 1) as nat,
                        ..done.visits[p]
                    },
                ),
                ..done
            },
        }
    }

    /// Whether the visit `id` is the last that another visit waits for.
    pub open spec fn last_awaited(self, id: int) -> bool {
        self.visits[id].parent matches Some(p) && 0 <= p < id && self.visits[p].waiting_for == 1
    }

    /// The scan after the visit `id` is over.
    ///
    /// Where the visit is the last that another visit waited for, that
    /// visit is over in turn, and so on up to the root.
    pub open spec fn close(self, id: int) -> ScanModel
        decreases id,
    {
        if self.last_awaited(id) {
            self.release(id).close(self.visits[id].parent->0)
        } else {
            self.release(id)
        }
    }

    /// The scan after the visit `id` scheduled and announced the visits of
    /// the subdirectories `names`. Its own work is done: it gives its unit
    /// back and waits for them.
    pub open spec fn spawn(self, id: int, names: Seq<Seq<char>>) -> ScanModel {
        let dir = self.visits[id].path;
        ScanModel {
            visits: self.visits.update(
                id,
                VisitModel { phase: Phase::Joining, waiting_for: names.len(), ..self.visits[id] },
            ) + Seq::new(names.len(), |k: int| child_visit(dir, id, names[k])),
            outbox: self.outbox + Seq::new(
                names.len(),
                |k: int| MessageModel::ScanningDirectory(join_path(dir, names[k])),
            ),
            ..self
        }
    }

    /// The scan after the visit `id` found its directory to be a
    /// repository root: the remotes are now to be read.
    pub open spec fn enter_repository(self, id: int) -> ScanModel {
        ScanModel {
            visits: self.visits.update(
                id,
                VisitModel { phase: Phase::ReadingRemotes, repository: true, ..self.visits[id] },
            ),
            ..self
        }
    }

    /// The scan after the visit `id` was told what listing its directory
    /// gave: `Err` with the error's text where the directory could not be
    /// opened, else what was read.
    ///
    /// A directory with an entry `.git` is a repository root: its
    /// subdirectories are not visited. A directory that cannot be opened,
    /// or whose reading ended in an error, is warned of with its path and
    /// the error's text; its visit is over and nothing below it is
    /// visited. Otherwise the subdirectories are scheduled, and the visit
    /// is over at once where there are none.
    pub open spec fn after_listing(self, id: int, outcome: Result<ListingModel, Seq<char>>) -> ScanModel {
        let path = self.visits[id].path;
        match outcome {
            Err(error) => self.emit(MessageModel::Warning(unreadable_warning(path, error))).close(
                id,
            ),
            Ok(listing) => {
                let names = subdirectory_names(listing.entries);
                if has_git_entry(listing.entries) {
                    self.enter_repository(id)
                } else if listing.error is Some {
                    self.emit(
                        MessageModel::Warning(unreadable_warning(path, listing.error->0)),
                    ).close(id)
                } else if names.len() == 0 {
                    self.close(id)
                } else {
                    self.spawn(id, names)
                }
            },
        }
    }

    /// The scan with the match `found` of the visit `id` recorded and
    /// announced.
    pub open spec fn record(self, id: int, found: MatchModel) -> ScanModel {
        ScanModel {
            results: self.results.push(found),
            sources: self.sources.push(id),
            outbox: self.outbox.push(MessageModel::MatchFound(found)),
            ..self
        }
    }

    /// The scan after the visit `id` was told the remotes of its
    /// repository, or `None` where they could not be read.
    ///
    /// Remotes that cannot be read are warned of. Where some remote
    /// matches the pattern, the repository is recorded with the remotes
    /// that match, in the order given. Either way the visit is over.
    pub open spec fn after_remotes(
        self,
        id: int,
        remotes: Option<Seq<(Seq<char>, Seq<char>)>>,
    ) -> ScanModel {
        let path = self.visits[id].path;
        match remotes {
            None => self.emit(MessageModel::Warning(remotes_warning(path))).close(id),
            Some(all) => {
                let hits = matching_remotes(self.pattern, all);
                if hits.len() > 0 {
                    self.record(id, MatchModel { path, remotes: hits }).close(id)
                } else {
                    self.close(id)
                }
            },
        }
    }

    /// The scan after its messages were handed out.
    pub open spec fn drained(self) -> ScanModel {
        ScanModel { outbox: Seq::empty(), ..self }
    }

    /// What holds of the visit `i`, the visit `open` being about to close.
    pub open spec fn visit_ok(self, i: int, open: Option<int>) -> bool {
        let v = self.visits[i];
        &&& (v.phase == Phase::Queued) == (i >= self.admitted)
        &&& v.waiting_for == tally(self.visits, Tally::ChildOf(i))
        &&& open != Some(i) ==> (v.phase == Phase::Joining) == (v.waiting_for > 0)
        &&& v.phase == Phase::ReadingRemotes ==> v.repository
        &&& v.repository ==> v.phase == Phase::ReadingRemotes || v.phase == Phase::Finished
        &&& i == 0 ==> v.parent is None
        &&& i > 0 ==> {
            &&& v.parent matches Some(p)
            &&& 0 <= p < i
            &&& self.visits[p].phase == Phase::Joining || self.visits[p].phase == Phase::Finished
            &&& !self.visits[p].repository
            &&& valid_name(v.name)
            &&& v.path == join_path(self.visits[p].path, v.name)
            &&& below_root(self.visits[0].path, v.path)
        }
    }

    /// What holds of the match `k`, the visit `open` being about to close.
    pub open spec fn result_ok(self, k: int, open: Option<int>) -> bool {
        let s = self.sources[k];
        let found = self.results[k];
        &&& 0 <= s < self.visits.len()
        &&& self.visits[s].path == found.path
        &&& self.visits[s].repository
        &&& self.visits[s].phase == Phase::Finished || open == Some(s)
        &&& found.remotes.len() > 0
        &&& forall|r: int|
            0 <= r < found.remotes.len() ==> matches_url(
                self.pattern,
                (#[trigger] found.remotes[r]).1,
            )
    }

    /// What holds of the scan while the visit `open` is about to close.
    pub open spec fn inv_but(self, open: Option<int>) -> bool {
        let n = self.visits.len();
        &&& n > 0
        &&& self.admitted <= n
        &&& self.sources.len() == self.results.len()
        &&& open matches Some(o) ==> {
            &&& 0 <= o < n
            &&& underway(self.visits[o].phase)
            &&& self.visits[o].waiting_for == 0
        }
        &&& forall|i: int| 0 <= i < n ==> #[trigger] self.visit_ok(i, open)
        &&& forall|i: int, j: int|
            0 <= i < j < n ==> (#[trigger] self.visits[i]).path != (#[trigger] self.visits[j]).path
        &&& forall|k: int| 0 <= k < self.results.len() ==> #[trigger] self.result_ok(k, open)
        &&& forall|a: int, b: int|
            0 <= a < b < self.sources.len() ==> #[trigger] self.sources[a]
                != #[trigger] self.sources[b]
        &&& self.ended == (self.visits[0].phase == Phase::Finished)
        &&& self.holders() <= self.limit
    }

    /// What holds of every scan between two steps.
    pub open spec fn inv(self) -> bool {
        self.inv_but(None)
    }
}

/// The names that `subdirectory_names` gives are those of the directories
/// among the entries; they are valid and differ from each other where the
/// subdirectories can be told apart.
pub proof fn lemma_subdirectory_names(entries: Seq<EntryModel>)
    ensures
        subdirectory_names(entries).len() <= entries.len(),
        forall|k: int|
            0 <= k < subdirectory_names(entries).len() ==> is_subdirectory(
                entries,
                #[trigger] subdirectory_names(entries)[k],
            ),
        distinct_subdirectories(entries) ==> {
            &&& forall|k: int|
                0 <= k < subdirectory_names(entries).len() ==> valid_name(
                    #[trigger] subdirectory_names(entries)[k],
                )
            &&& forall|a: int, b: int|
                0 <= a < b < subdirectory_names(entries).len() ==> #[trigger] subdirectory_names(
                    entries,
                )[a] != #[trigger] subdirectory_names(entries)[b]
        },
    decreases entries.len(),
{
    if entries.len() > 0 {
        let front = entries.drop_last();
        let names = subdirectory_names(entries);
        let before = subdirectory_names(front);
        let last = entries.len() - 1;
        lemma_subdirectory_names(front);
        assert forall|k: int| 0 <= k < names.len() implies is_subdirectory(
            entries,
            #[trigger] names[k],
        ) by {
            if k < before.len() {
                assert(is_subdirectory(front, before[k]));
                let i = choose|i: int|
                    0 <= i < front.len() && (#[trigger] front[i]).is_dir && front[i].name
                        == before[k];
                assert(entries[i].is_dir && entries[i].name == names[k]);
            } else {
                assert(entries[last].is_dir && entries[last].name == names[k]);
            }
        }
        if distinct_subdirectories(entries) {
            assert(distinct_subdirectories(front)) by {
                assert forall|i: int| 0 <= i < front.len() && (#[trigger] front[i]).is_dir implies valid_name(
                    front[i].name,
                ) by {
                    assert(entries[i].is_dir);
                }
                assert forall|i: int, j: int|
                    0 <= i < j < front.len() && (#[trigger] front[i]).is_dir && (
                    #[trigger] front[j]).is_dir implies front[i].name != front[j].name by {
                    assert(entries[i].is_dir && entries[j].is_dir);
                }
            }
            assert forall|k: int| 0 <= k < names.len() implies valid_name(#[trigger] names[k]) by {
                if k >= before.len() {
                    assert(entries[last].is_dir);
                }
            }
            assert forall|a: int, b: int| 0 <= a < b < names.len() implies #[trigger] names[a]
                != #[trigger] names[b] by {
                if b >= before.len() {
                    assert(is_subdirectory(front, before[a]));
                    let i = choose|i: int|
                        0 <= i < front.len() && (#[trigger] front[i]).is_dir && front[i].name
                            == before[a];
                    assert(entries[i].is_dir && entries[last].is_dir);
                }
            }
        }
    }
}

/// A scan starts in a state of which the invariant holds.
pub proof fn lemma_start_inv(root: Seq<char>, pattern: PatternView, limit: nat)
    ensures
        ScanModel::start(root, pattern, limit).inv(),
        ScanModel::start(root, pattern, limit).holders() == 0,
{
    let m = ScanModel::start(root, pattern, limit);
    let none = Seq::<VisitModel>::empty();
    assert(m.visits =~= none.push(m.visits[0]));
    lemma_tally_push(none, m.visits[0], Tally::Holder);
    lemma_tally_push(none, m.visits[0], Tally::ChildOf(0));
    assert(m.visit_ok(0, None));
}

/// Handing out the messages changes nothing else.
pub proof fn lemma_drained_inv(m: ScanModel, open: Option<int>)
    requires
        m.inv_but(open),
    ensures
        m.drained().inv_but(open),
{
    let d = m.drained();
    assert forall|i: int| 0 <= i < d.visits.len() implies #[trigger] d.visit_ok(i, open) by {
        assert(m.visit_ok(i, open));
    }
    assert forall|k: int| 0 <= k < d.results.len() implies #[trigger] d.result_ok(k, open) by {
        assert(m.result_ok(k, open));
    }
}

/// A message more changes nothing else.
pub proof fn lemma_emit_inv(m: ScanModel, message: MessageModel, open: Option<int>)
    requires
        m.inv_but(open),
    ensures
        m.emit(message).inv_but(open),
{
    let d = m.emit(message);
    assert forall|i: int| 0 <= i < d.visits.len() implies #[trigger] d.visit_ok(i, open) by {
        assert(m.visit_ok(i, open));
    }
    assert forall|k: int| 0 <= k < d.results.len() implies #[trigger] d.result_ok(k, open) by {
        assert(m.result_ok(k, open));
    }
}

/// A visit in an answering phase is about to close once it has its answer.
pub proof fn lemma_open_for_closing(m: ScanModel, id: int)
    requires
        m.inv(),
        m.expects_listing(id) || m.expects_remotes(id),
    ensures
        m.inv_but(Some(id)),
{
    assert(m.visit_ok(id, None));
    assert(m.visit_ok(0, None));
    assert forall|i: int| 0 <= i < m.visits.len() implies #[trigger] m.visit_ok(i, Some(id)) by {
        assert(m.visit_ok(i, None));
    }
    assert forall|k: int| 0 <= k < m.results.len() implies #[trigger] m.result_ok(k, Some(id)) by {
        assert(m.result_ok(k, None));
    }
}

/// Giving a unit to the longest-waiting visit keeps the invariant; one
/// visit more holds a unit and awaits an answer.
pub proof fn lemma_grant_inv(m: ScanModel)
    requires
        m.inv(),
        m.can_grant(),
    ensures
        m.grant().inv(),
        m.grant().holders() == m.holders() + 1,
        m.grant().expects_listing(m.admitted as int),
{
    let id = m.admitted as int;
    let g = m.grant();
    let n = m.visits.len() as int;
    assert(m.visit_ok(id, None));
    lemma_tally_update(m.visits, id, g.visits[id], Tally::Holder);
    assert forall|i: int| 0 <= i < n implies #[trigger] g.visit_ok(i, None) by {
        assert(m.visit_ok(i, None));
        lemma_tally_update(m.visits, id, g.visits[id], Tally::ChildOf(i));
    }
    assert forall|k: int| 0 <= k < g.results.len() implies #[trigger] g.result_ok(k, None) by {
        assert(m.result_ok(k, None));
    }
    assert forall|i: int, j: int| 0 <= i < j < n implies (#[trigger] g.visits[i]).path != (
    #[trigger] g.visits[j]).path by {
        assert(m.visits[i].path != m.visits[j].path);
    }
}

/// The visit that a visit about to close is waited for by.
pub open spec fn next_open(m: ScanModel, id: int) -> Option<int> {
    if m.last_awaited(id) {
        m.visits[id].parent
    } else {
        None
    }
}

/// A visit that is about to close gives back the unit that it holds; what
/// holds afterwards is the invariant, but for the visit that it was the
/// last to be waited for by, which is then about to close in turn.
pub proof fn lemma_release_inv(m: ScanModel, id: int)
    requires
        m.inv_but(Some(id)),
    ensures
        m.release(id).inv_but(next_open(m, id)),
        m.release(id).holders() + (if holds_unit(m.visits[id].phase) {
            1nat
        } else {
            0nat
        }) == m.holders(),
        m.visits[id].parent matches Some(p) ==> 0 <= p < id && m.visits[p].waiting_for > 0
            && m.visits[p].phase == Phase::Joining,
        m.visits[id].parent is None ==> id == 0,
{
    let n = m.visits.len() as int;
    let c = m.release(id);
    let done = m.with_phase(id, Phase::Finished);
    let vd = done.visits[id];
    assert(m.visit_ok(id, Some(id)));
    lemma_tally_update(m.visits, id, vd, Tally::Holder);
    match m.visits[id].parent {
        None => {
            assert(id == 0);
            assert forall|i: int| 0 <= i < n implies #[trigger] c.visit_ok(i, None) by {
                assert(m.visit_ok(i, Some(id)));
                lemma_tally_update(m.visits, id, vd, Tally::ChildOf(i));
            }
            assert forall|k: int| 0 <= k < c.results.len() implies #[trigger] c.result_ok(
                k,
                None,
            ) by {
                assert(m.result_ok(k, Some(id)));
            }
            assert forall|i: int, j: int| 0 <= i < j < n implies (#[trigger] c.visits[i]).path != (
            #[trigger] c.visits[j]).path by {
                assert(m.visits[i].path != m.visits[j].path);
            }
        },
        Some(p) => {
            assert(0 <= p < id);
            assert(m.visit_ok(p, Some(id)));
            assert(counted(m.visits[id], Tally::ChildOf(p)));
            lemma_tally_bounds(m.visits, Tally::ChildOf(p));
            assert(m.visits[p].waiting_for > 0);
            assert(m.visits[p].phase == Phase::Joining);
            let vp = c.visits[p];
            let open2 = next_open(m, id);
            assert(c.visits =~= done.visits.update(p, vp));
            lemma_tally_update(done.visits, p, vp, Tally::Holder);
            assert forall|i: int| 0 <= i < n implies #[trigger] c.visit_ok(i, open2) by {
                assert(m.visit_ok(i, Some(id)));
                lemma_tally_update(m.visits, id, vd, Tally::ChildOf(i));
                lemma_tally_update(done.visits, p, vp, Tally::ChildOf(i));
            }
            assert forall|k: int| 0 <= k < c.results.len() implies #[trigger] c.result_ok(
                k,
                open2,
            ) by {
                assert(m.result_ok(k, Some(id)));
            }
            assert forall|i: int, j: int| 0 <= i < j < n implies (#[trigger] c.visits[i]).path != (
            #[trigger] c.visits[j]).path by {
                assert(m.visits[i].path != m.visits[j].path);
            }
        },
    }
}

/// Closing a visit that is about to close restores the invariant, and
/// gives back the unit that the visit holds.
pub proof fn lemma_close_inv(m: ScanModel, id: int)
    requires
        m.inv_but(Some(id)),
    ensures
        m.close(id).inv(),
        m.close(id).holders() + (if holds_unit(m.visits[id].phase) {
            1nat
        } else {
            0nat
        }) == m.holders(),
    decreases id,
{
    lemma_release_inv(m, id);
    if m.last_awaited(id) {
        lemma_close_inv(m.release(id), m.visits[id].parent->0);
    }
}

/// What closing a visit leaves as it is: the matches, the messages, the
/// visits' paths and kin, and every visit that is not waiting for others,
/// the closed one apart.
pub proof fn lemma_close_frame(m: ScanModel, id: int)
    requires
        m.inv_but(Some(id)),
    ensures
        m.close(id).results == m.results,
        m.close(id).sources == m.sources,
        m.close(id).outbox == m.outbox,
        m.close(id).pattern == m.pattern,
        m.close(id).limit == m.limit,
        m.close(id).admitted == m.admitted,
        m.close(id).visits.len() == m.visits.len(),
        m.close(id).visits[id].phase == Phase::Finished,
        forall|i: int|
            0 <= i < m.visits.len() ==> {
                let before = #[trigger] m.visits[i];
                let after = m.close(id).visits[i];
                &&& after.path == before.path
                &&& after.name == before.name
                &&& after.parent == before.parent
                &&& after.repository == before.repository
                &&& i != id && before.phase != Phase::Joining ==> after == before
                &&& after.phase == before.phase || after.phase == Phase::Finished
            },
        m.close(id).ended == (m.ended || m.close(id).visits[0].phase == Phase::Finished),
    decreases id,
{
    let c = m.close(id);
    let r = m.release(id);
    lemma_release_inv(m, id);
    assert(m.visit_ok(id, Some(id)));
    assert(m.visit_ok(0, Some(id)));
    if m.last_awaited(id) {
        let p = m.visits[id].parent->0;
        lemma_close_frame(r, p);
        assert(r.visits[id].phase == Phase::Finished);
        assert forall|i: int| 0 <= i < m.visits.len() implies {
            let before = #[trigger] m.visits[i];
            let after = c.visits[i];
            &&& after.path == before.path
            &&& after.name == before.name
            &&& after.parent == before.parent
            &&& after.repository == before.repository
            &&& i != id && before.phase != Phase::Joining ==> after == before
            &&& after.phase == before.phase || after.phase == Phase::Finished
        } by {
            let mid = r.visits[i];
            assert(mid.path == m.visits[i].path);
        }
    }
}

/// Turning to the remotes of a repository root keeps the invariant and
/// schedules nothing.
pub proof fn lemma_enter_repository_inv(m: ScanModel, id: int)
    requires
        m.inv(),
        m.expects_listing(id),
    ensures
        m.enter_repository(id).inv(),
        m.enter_repository(id).holders() == m.holders(),
        m.enter_repository(id).expects_remotes(id),
{
    let n = m.visits.len() as int;
    let e = m.enter_repository(id);
    assert(m.visit_ok(id, None));
    lemma_tally_update(m.visits, id, e.visits[id], Tally::Holder);
    assert forall|i: int| 0 <= i < n implies #[trigger] e.visit_ok(i, None) by {
        assert(m.visit_ok(i, None));
        lemma_tally_update(m.visits, id, e.visits[id], Tally::ChildOf(i));
    }
    assert forall|k: int| 0 <= k < e.results.len() implies #[trigger] e.result_ok(k, None) by {
        assert(m.result_ok(k, None));
    }
    assert forall|i: int, j: int| 0 <= i < j < n implies (#[trigger] e.visits[i]).path != (
    #[trigger] e.visits[j]).path by {
        assert(m.visits[i].path != m.visits[j].path);
    }
}

/// Scheduling the subdirectories of a listed directory keeps the
/// invariant: the unit of the visit is given back, none is taken, and no
/// two visits share a path.
pub proof fn lemma_spawn_inv(m: ScanModel, id: int, names: Seq<Seq<char>>)
    requires
        m.inv(),
        m.expects_listing(id),
        names.len() > 0,
        forall|k: int| 0 <= k < names.len() ==> valid_name(#[trigger] names[k]),
        forall|a: int, b: int| 0 <= a < b < names.len() ==> #[trigger] names[a] != #[trigger] names[b],
    ensures
        m.spawn(id, names).inv(),
        m.spawn(id, names).holders() + 1 == m.holders(),
{
    let n = m.visits.len() as int;
    let s = m.spawn(id, names);
    let dir = m.visits[id].path;
    let root = m.visits[0].path;
    let vj = VisitModel { phase: Phase::Joining, waiting_for: names.len(), ..m.visits[id] };
    let kept = m.visits.update(id, vj);
    let kids = Seq::new(names.len(), |k: int| child_visit(dir, id, names[k]));
    assert(s.visits == kept + kids);
    assert(m.visit_ok(id, None));
    assert(m.visit_ok(0, None));
    assert(dir == root || below_root(root, dir));
    lemma_tally_update(m.visits, id, vj, Tally::Holder);
    lemma_tally_extend(kept, kids, Tally::Holder);
    assert forall|i: int| 0 <= i < s.visits.len() implies #[trigger] s.visit_ok(i, None) by {
        if i < n {
            assert(m.visit_ok(i, None));
            lemma_tally_update(m.visits, id, vj, Tally::ChildOf(i));
            if i == id {
                lemma_tally_extend_all(kept, kids, Tally::ChildOf(i));
            } else {
                lemma_tally_extend(kept, kids, Tally::ChildOf(i));
            }
        } else {
            lemma_tally_bounds(s.visits, Tally::ChildOf(i));
            if tally(s.visits, Tally::ChildOf(i)) > 0 {
                let j = choose|j: int|
                    0 <= j < s.visits.len() && counted(#[trigger] s.visits[j], Tally::ChildOf(i));
                if j < n {
                    assert(m.visit_ok(j, None));
                }
            }
            lemma_join_path_below_root(root, dir, names[i - n]);
        }
    }
    assert forall|k: int| 0 <= k < s.results.len() implies #[trigger] s.result_ok(k, None) by {
        assert(m.result_ok(k, None));
    }
    assert forall|i: int, j: int| 0 <= i < j < s.visits.len() implies (
    #[trigger] s.visits[i]).path != (#[trigger] s.visits[j]).path by {
        if j < n {
            assert(m.visits[i].path != m.visits[j].path);
        } else if i >= n {
            if s.visits[i].path == s.visits[j].path {
                lemma_join_path_injective(root, dir, names[i - n], dir, names[j - n]);
            }
        } else {
            lemma_join_path_below_root(root, dir, names[j - n]);
            assert(m.visit_ok(i, None));
            if i > 0 && s.visits[i].path == s.visits[j].path {
                let p = m.visits[i].parent->0;
                assert(m.visit_ok(p, None));
                lemma_join_path_injective(
                    root,
                    m.visits[p].path,
                    m.visits[i].name,
                    dir,
                    names[j - n],
                );
                if p < id {
                    assert(m.visits[p].path != m.visits[id].path);
                }
                if id < p {
                    assert(m.visits[id].path != m.visits[p].path);
                }
            }
        }
    }
}

/// Recording the match of a repository whose visit is about to close
/// keeps what holds then.
pub proof fn lemma_record_inv(m: ScanModel, id: int, found: MatchModel)
    requires
        m.inv_but(Some(id)),
        m.expects_remotes(id),
        found.path == m.visits[id].path,
        found.remotes.len() > 0,
        forall|r: int|
            0 <= r < found.remotes.len() ==> matches_url(m.pattern, (#[trigger] found.remotes[r]).1),
        forall|k: int| 0 <= k < m.sources.len() ==> #[trigger] m.sources[k] != id,
    ensures
        m.record(id, found).inv_but(Some(id)),
        m.record(id, found).holders() == m.holders(),
{
    let d = m.record(id, found);
    assert(m.visit_ok(id, Some(id)));
    assert forall|i: int| 0 <= i < d.visits.len() implies #[trigger] d.visit_ok(i, Some(id)) by {
        assert(m.visit_ok(i, Some(id)));
    }
    assert forall|k: int| 0 <= k < d.results.len() implies #[trigger] d.result_ok(k, Some(id)) by {
        if k < m.results.len() {
            assert(m.result_ok(k, Some(id)));
        }
    }
}

/// Telling a visit what listing its directory gave keeps the invariant,
/// whatever the listing holds. The visit gives its unit back unless it
/// turns to the remotes of a repository root.
pub proof fn lemma_after_listing_inv(m: ScanModel, id: int, outcome: Result<ListingModel, Seq<char>>)
    requires
        m.inv(),
        m.expects_listing(id),
        outcome matches Ok(listing) ==> distinct_subdirectories(listing.entries),
    ensures
        m.after_listing(id, outcome).inv(),
        m.after_listing(id, outcome).holders() + (if m.after_listing(id, outcome).expects_remotes(
            id,
        ) {
            0nat
        } else {
            1nat
        }) == m.holders(),
{
    let path = m.visits[id].path;
    lemma_open_for_closing(m, id);
    match outcome {
        Err(error) => {
            let warned = m.emit(MessageModel::Warning(unreadable_warning(path, error)));
            lemma_emit_inv(m, MessageModel::Warning(unreadable_warning(path, error)), Some(id));
            lemma_close_inv(warned, id);
            lemma_close_frame(warned, id);
        },
        Ok(listing) => {
            let names = subdirectory_names(listing.entries);
            lemma_subdirectory_names(listing.entries);
            if has_git_entry(listing.entries) {
                lemma_enter_repository_inv(m, id);
            } else if listing.error is Some {
                let error = listing.error->0;
                let warned = m.emit(MessageModel::Warning(unreadable_warning(path, error)));
                lemma_emit_inv(m, MessageModel::Warning(unreadable_warning(path, error)), Some(id));
                lemma_close_inv(warned, id);
                lemma_close_frame(warned, id);
            } else if names.len() == 0 {
                lemma_close_inv(m, id);
                lemma_close_frame(m, id);
            } else {
                lemma_spawn_inv(m, id, names);
                assert(m.spawn(id, names).visits[id].phase == Phase::Joining);
            }
        },
    }
}

/// The remotes that match a pattern are some, in order, of those given,
/// and each of them matches.
pub proof fn lemma_matching_remotes(pattern: PatternView, remotes: Seq<(Seq<char>, Seq<char>)>)
    ensures
        matching_remotes(pattern, remotes).len() <= remotes.len(),
        forall|r: int|
            0 <= r < matching_remotes(pattern, remotes).len() ==> matches_url(
                pattern,
                (#[trigger] matching_remotes(pattern, remotes)[r]).1,
            ) && remotes.contains(matching_remotes(pattern, remotes)[r]),
        forall|i: int|
            0 <= i < remotes.len() && matches_url(pattern, (#[trigger] remotes[i]).1)
                ==> matching_remotes(pattern, remotes).contains(remotes[i]),
{
    let keep = |r: (Seq<char>, Seq<char>)| matches_url(pattern, r.1);
    let hits = remotes.filter(keep);
    remotes.lemma_filter_len(keep);
    assert forall|r: int| 0 <= r < hits.len() implies matches_url(pattern, (#[trigger] hits[r]).1)
        && remotes.contains(hits[r]) by {
        remotes.lemma_filter_pred(keep, r);
        remotes.lemma_filter_contains_rev(keep, hits[r]);
        assert(hits.contains(hits[r]));
    }
    assert forall|i: int|
        0 <= i < remotes.len() && matches_url(pattern, (#[trigger] remotes[i]).1) implies hits.contains(
        remotes[i],
    ) by {
        remotes.lemma_filter_contains(keep, i);
    }
}

/// Telling a visit the remotes of its repository keeps the invariant.
pub proof fn lemma_after_remotes_inv(
    m: ScanModel,
    id: int,
    remotes: Option<Seq<(Seq<char>, Seq<char>)>>,
)
    requires
        m.inv(),
        m.expects_remotes(id),
    ensures
        m.after_remotes(id, remotes).inv(),
        m.after_remotes(id, remotes).holders() + 1 == m.holders(),
{
    let path = m.visits[id].path;
    lemma_open_for_closing(m, id);
    match remotes {
        None => {
            let warned = m.emit(MessageModel::Warning(remotes_warning(path)));
            lemma_emit_inv(m, MessageModel::Warning(remotes_warning(path)), Some(id));
            lemma_close_inv(warned, id);
        },
        Some(all) => {
            let hits = matching_remotes(m.pattern, all);
            if hits.len() > 0 {
                let found = MatchModel { path, remotes: hits };
                lemma_matching_remotes(m.pattern, all);
                assert forall|k: int| 0 <= k < m.sources.len() implies #[trigger] m.sources[k]
                    != id by {
                    assert(m.result_ok(k, None));
                }
                lemma_record_inv(m, id, found);
                lemma_close_inv(m.record(id, found), id);
            } else {
                lemma_close_inv(m, id);
            }
        },
    }
}

/// One remote more is kept exactly where its URL matches.
pub proof fn lemma_matching_remotes_push(
    pattern: PatternView,
    remotes: Seq<(Seq<char>, Seq<char>)>,
    next: (Seq<char>, Seq<char>),
)
    ensures
        matching_remotes(pattern, Seq::empty()) == Seq::<(Seq<char>, Seq<char>)>::empty(),
        matching_remotes(pattern, remotes.push(next)) == if matches_url(pattern, next.1) {
            matching_remotes(pattern, remotes).push(next)
        } else {
            matching_remotes(pattern, remotes)
        },
{
    let keep = |r: (Seq<char>, Seq<char>)| matches_url(pattern, r.1);
    reveal(Seq::filter);
    assert(remotes.push(next).drop_last() =~= remotes);
}

/// No two matches of a scan have the same path.
pub proof fn lemma_results_distinct(m: ScanModel)
    requires
        m.inv(),
    ensures
        forall|a: int, b: int|
            0 <= a < b < m.results.len() ==> (#[trigger] m.results[a]).path != (
            #[trigger] m.results[b]).path,
{
    assert forall|a: int, b: int| 0 <= a < b < m.results.len() implies (
    #[trigger] m.results[a]).path != (#[trigger] m.results[b]).path by {
        assert(m.result_ok(a, None));
        assert(m.result_ok(b, None));
        let i = m.sources[a];
        let j = m.sources[b];
        assert(i != j);
        if i < j {
            assert(m.visits[i].path != m.visits[j].path);
        } else {
            assert(m.visits[j].path != m.visits[i].path);
        }
    }
}

} // verus!
